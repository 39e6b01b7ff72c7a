//! A small SQL database: up to four tables of INT and TEXT columns, and the statements
//! CREATE TABLE, INSERT, SELECT, UPDATE, DELETE and DROP TABLE over them.
//!
//! A statement is read token by token (`lex`); each statement is first parsed and
//! resolved against the database into a plan, or an error message, and the plan is then
//! carried out.

use vstd::prelude::*;
use crate::bytes::{extend, scan_until, lemma_scan_until_bounds, lemma_scan_until_first, lower, lower_exec, bytes_eq, name_eq_ci,
    eq_ci_prefix, min, same_except, slice_prefix};
use crate::http::{lit, lit_bytes, find_header_end, parse_request_line, request_line_parts, method_is, path_eq,
    parse_content_length, content_length_of, response_head, build_response, header_end_of, lemma_blank_line_from};
use crate::numfmt::{all_digits, digits_value, is_digit, is_digit_exec, dec_digits, signed_digits, format_u32, format_i32};

verus! {

/// How many tables the database holds.
pub const MAX_TABLES: usize = 4;
/// How many columns a table may have.
pub const MAX_COLUMNS: usize = 8;
/// How many rows a table holds.
pub const MAX_ROWS: usize = 256;
/// The longest table or column name that is kept.
pub const MAX_NAME_LEN: usize = 32;
/// The longest text value that is kept.
pub const MAX_TEXT_LEN: usize = 64;
/// The longest answer to a statement; the rest of a longer one is dropped.
pub const MAX_SQL_RESPONSE: usize = 8192;
/// The longest word that can be a keyword.
pub const MAX_KEYWORD_LEN: usize = 16;

/// The keywords of the language (matched without regard to case).
#[derive(PartialEq, Eq, Structural, Clone, Copy)]
pub enum Keyword {
    Create,
    Table,
    Insert,
    Into,
    Values,
    Select,
    From,
    Where,
    Update,
    SetKw,
    Delete,
    Drop,
    Int,
    Text,
    And,
}

/// The kinds of token.
#[derive(PartialEq, Eq, Structural, Clone, Copy)]
pub enum TokKind {
    Kw(Keyword),
    Ident,
    IntLit,
    StrLit,
    LParen,
    RParen,
    Comma,
    Star,
    Eq,
    Eof,
}

/// A token as the specification sees it: its kind, where it starts, where reading goes on
/// after it, the value of an integer literal and the text of a string literal.
pub struct SqlToken {
    pub kind: TokKind,
    pub start: int,
    pub end: int,
    pub int_val: i32,
    pub text: Seq<u8>,
}

/// A token read from a statement.
pub struct Token {
    pub kind: TokKind,
    pub start: usize,
    pub end: usize,
    pub int_val: i32,
    pub text: Vec<u8>,
}

impl View for Token {
    type V = SqlToken;

    open spec fn view(&self) -> SqlToken {
        SqlToken {
            kind: self.kind,
            start: self.start as int,
            end: self.end as int,
            int_val: self.int_val,
            text: self.text@,
        }
    }
}

/// Space, tab, carriage return or newline.
pub open spec fn is_sql_space(c: u8) -> bool {
    c == 32 || c == 9 || c == 13 || c == 10
}

/// A letter or an underscore: what an identifier starts with.
pub open spec fn is_ident_start(c: u8) -> bool {
    (65 <= c <= 90) || (97 <= c <= 122) || c == 95
}

/// What an identifier goes on with: a letter, a digit or an underscore.
pub open spec fn is_ident_char(c: u8) -> bool {
    is_ident_start(c) || is_digit(c)
}

/// A byte sequence in ASCII lower case.
pub open spec fn lower_seq(s: Seq<u8>) -> Seq<u8> {
    s.map_values(|c: u8| lower(c))
}

/// The keyword that a lower-case word spells, if any.
pub open spec fn keyword_lower(w: Seq<u8>) -> Option<Keyword> {
    if w == lit("int") {
        Some(Keyword::Int)
    } else if w == lit("set") {
        Some(Keyword::SetKw)
    } else if w == lit("and") {
        Some(Keyword::And)
    } else if w == lit("text") {
        Some(Keyword::Text)
    } else if w == lit("into") {
        Some(Keyword::Into)
    } else if w == lit("from") {
        Some(Keyword::From)
    } else if w == lit("drop") {
        Some(Keyword::Drop)
    } else if w == lit("table") {
        Some(Keyword::Table)
    } else if w == lit("where") {
        Some(Keyword::Where)
    } else if w == lit("create") {
        Some(Keyword::Create)
    } else if w == lit("insert") {
        Some(Keyword::Insert)
    } else if w == lit("select") {
        Some(Keyword::Select)
    } else if w == lit("update") {
        Some(Keyword::Update)
    } else if w == lit("delete") {
        Some(Keyword::Delete)
    } else if w == lit("values") {
        Some(Keyword::Values)
    } else {
        None
    }
}

/// The keyword a word spells in any case (no word longer than `MAX_KEYWORD_LEN` is one).
pub open spec fn keyword_of(w: Seq<u8>) -> Option<Keyword> {
    if w.len() > MAX_KEYWORD_LEN {
        None
    } else {
        keyword_lower(lower_seq(w))
    }
}

/// Adds a byte to the text of a string literal while it is shorter than `MAX_TEXT_LEN`.
pub open spec fn keep(acc: Seq<u8>, c: u8) -> Seq<u8> {
    if acc.len() < MAX_TEXT_LEN {
        acc.push(c)
    } else {
        acc
    }
}

/// Reads the body of a string literal from `pos` (just after its opening quote): the text
/// (a doubled quote stands for one quote) and where reading goes on; an unterminated
/// literal runs to the end.
pub open spec fn str_body(input: Seq<u8>, pos: int, acc: Seq<u8>) -> (Seq<u8>, int)
    decreases input.len() - pos,
{
    if pos < 0 || pos >= input.len() {
        (acc, pos)
    } else if input[pos] == 39 {
        if pos + 1 < input.len() && input[pos + 1] == 39 {
            str_body(input, pos + 2, keep(acc, 39))
        } else {
            (acc, pos + 1)
        }
    } else {
        str_body(input, pos + 1, keep(acc, input[pos]))
    }
}

/// The digits in `input[pos..end]` folded into `acc` with the wrapping arithmetic of `i32`.
pub open spec fn int_fold(input: Seq<u8>, pos: int, end: int, acc: i32) -> i32
    decreases end - pos,
{
    if pos >= end {
        acc
    } else {
        int_fold(input, pos + 1, end, acc.wrapping_mul(10).wrapping_add((input[pos] - 48) as i32))
    }
}

/// The token that starts at or after `pos`: blanks are skipped, and so is any byte that can
/// start no token.
#[verifier::opaque]
pub open spec fn lex(input: Seq<u8>, pos: int) -> SqlToken
    decreases input.len() - pos,
{
    let p = scan_until(input, pos, |c: u8| !is_sql_space(c));
    let none = Seq::<u8>::empty();
    if pos < 0 || p >= input.len() {
        SqlToken { kind: TokKind::Eof, start: p, end: p, int_val: 0, text: none }
    } else {
        let c = input[p];
        if c == 40 {
            SqlToken { kind: TokKind::LParen, start: p, end: p + 1, int_val: 0, text: none }
        } else if c == 41 {
            SqlToken { kind: TokKind::RParen, start: p, end: p + 1, int_val: 0, text: none }
        } else if c == 44 {
            SqlToken { kind: TokKind::Comma, start: p, end: p + 1, int_val: 0, text: none }
        } else if c == 42 {
            SqlToken { kind: TokKind::Star, start: p, end: p + 1, int_val: 0, text: none }
        } else if c == 61 {
            SqlToken { kind: TokKind::Eq, start: p, end: p + 1, int_val: 0, text: none }
        } else if c == 39 {
            let (txt, e) = str_body(input, p + 1, none);
            SqlToken { kind: TokKind::StrLit, start: p, end: e, int_val: 0, text: txt }
        } else if c == 45 || is_digit(c) {
            let s = if c == 45 {
                p + 1
            } else {
                p
            };
            let e = scan_until(input, s, |c: u8| !is_digit(c));
            let v = int_fold(input, s, e, 0);
            let val = if c == 45 {
                0i32.wrapping_sub(v)
            } else {
                v
            };
            SqlToken { kind: TokKind::IntLit, start: p, end: e, int_val: val, text: none }
        } else if is_ident_start(c) {
            let e = scan_until(input, p, |c: u8| !is_ident_char(c));
            let kind = match keyword_of(input.subrange(p, e)) {
                Some(k) => TokKind::Kw(k),
                None => TokKind::Ident,
            };
            SqlToken { kind, start: p, end: e, int_val: 0, text: none }
        } else {
            proof {
                lemma_scan_until_bounds(input, pos, |c: u8| !is_sql_space(c));
            }
            lex(input, p + 1)
        }
    }
}

/// The keyword a word spells, matched without regard to case.
pub fn keyword_match(w: &[u8]) -> (res: Option<Keyword>)
    ensures
        res == keyword_of(w@),
{
    if w.len() > MAX_KEYWORD_LEN {
        return None;
    }
    let mut low: Vec<u8> = Vec::new();
    let mut i: usize = 0;
    while i < w.len()
        invariant
            i <= w@.len(),
            low@ == lower_seq(w@.take(i as int)),
        decreases w@.len() - i,
    {
        low.push(lower_exec(w[i]));
        assert(lower_seq(w@.take(i + 1)) =~= lower_seq(w@.take(i as int)).push(lower(w@[i as int])));
        i += 1;
    }
    assert(w@.take(i as int) =~= w@);
    let l = low.as_slice();
    if bytes_eq(l, "int".as_bytes()) {
        Some(Keyword::Int)
    } else if bytes_eq(l, "set".as_bytes()) {
        Some(Keyword::SetKw)
    } else if bytes_eq(l, "and".as_bytes()) {
        Some(Keyword::And)
    } else if bytes_eq(l, "text".as_bytes()) {
        Some(Keyword::Text)
    } else if bytes_eq(l, "into".as_bytes()) {
        Some(Keyword::Into)
    } else if bytes_eq(l, "from".as_bytes()) {
        Some(Keyword::From)
    } else if bytes_eq(l, "drop".as_bytes()) {
        Some(Keyword::Drop)
    } else if bytes_eq(l, "table".as_bytes()) {
        Some(Keyword::Table)
    } else if bytes_eq(l, "where".as_bytes()) {
        Some(Keyword::Where)
    } else if bytes_eq(l, "create".as_bytes()) {
        Some(Keyword::Create)
    } else if bytes_eq(l, "insert".as_bytes()) {
        Some(Keyword::Insert)
    } else if bytes_eq(l, "select".as_bytes()) {
        Some(Keyword::Select)
    } else if bytes_eq(l, "update".as_bytes()) {
        Some(Keyword::Update)
    } else if bytes_eq(l, "delete".as_bytes()) {
        Some(Keyword::Delete)
    } else if bytes_eq(l, "values".as_bytes()) {
        Some(Keyword::Values)
    } else {
        None
    }
}

fn is_sql_space_exec(c: u8) -> (res: bool)
    ensures
        res == is_sql_space(c),
{
    c == 32 || c == 9 || c == 13 || c == 10
}

fn is_ident_start_exec(c: u8) -> (res: bool)
    ensures
        res == is_ident_start(c),
{
    (65 <= c && c <= 90) || (97 <= c && c <= 122) || c == 95
}

/// Reads the body of a string literal that starts at `pos`.
fn lex_string(input: &[u8], pos: usize) -> (res: (Vec<u8>, usize))
    requires
        1 <= pos <= input@.len(),
    ensures
        (res.0@, res.1 as int) == str_body(input@, pos as int, Seq::empty()),
        pos <= res.1 <= input@.len(),
{
    let mut acc: Vec<u8> = Vec::new();
    let mut p = pos;
    while p < input.len()
        invariant
            pos <= p <= input@.len(),
            str_body(input@, p as int, acc@) == str_body(input@, pos as int, Seq::empty()),
        decreases input@.len() - p,
    {
        if input[p] == 39 {
            if p + 1 < input.len() && input[p + 1] == 39 {
                if acc.len() < MAX_TEXT_LEN {
                    acc.push(39);
                }
                p += 2;
            } else {
                return (acc, p + 1);
            }
        } else {
            if acc.len() < MAX_TEXT_LEN {
                acc.push(input[p]);
            }
            p += 1;
        }
    }
    (acc, p)
}

/// Reads the token that starts at or after `pos`.
pub fn lex_at(input: &[u8], pos: usize) -> (t: Token)
    requires
        pos <= input@.len(),
    ensures
        t@ == lex(input@, pos as int),
        pos <= t.end <= input@.len(),
{
    let mut p = pos;
    loop
        invariant
            pos <= p <= input@.len(),
            lex(input@, pos as int) == lex(input@, p as int),
        decreases input@.len() - p,
    {
        proof {
            reveal(lex);
        }
        let q0 = p;
        while p < input.len() && is_sql_space_exec(input[p])
            invariant
                q0 <= p <= input@.len(),
                scan_until(input@, q0 as int, |c: u8| !is_sql_space(c)) == scan_until(
                    input@,
                    p as int,
                    |c: u8| !is_sql_space(c),
                ),
            decreases input@.len() - p,
        {
            p += 1;
        }
        let ghost sp = p;
        if p >= input.len() {
            return Token { kind: TokKind::Eof, start: p, end: p, int_val: 0, text: Vec::new() };
        }
        let c = input[p];
        if c == 40 {
            return Token { kind: TokKind::LParen, start: p, end: p + 1, int_val: 0, text: Vec::new() };
        } else if c == 41 {
            return Token { kind: TokKind::RParen, start: p, end: p + 1, int_val: 0, text: Vec::new() };
        } else if c == 44 {
            return Token { kind: TokKind::Comma, start: p, end: p + 1, int_val: 0, text: Vec::new() };
        } else if c == 42 {
            return Token { kind: TokKind::Star, start: p, end: p + 1, int_val: 0, text: Vec::new() };
        } else if c == 61 {
            return Token { kind: TokKind::Eq, start: p, end: p + 1, int_val: 0, text: Vec::new() };
        } else if c == 39 {
            let (txt, e) = lex_string(input, p + 1);
            return Token { kind: TokKind::StrLit, start: p, end: e, int_val: 0, text: txt };
        } else if c == 45 || is_digit_exec(c) {
            let s = if c == 45 {
                p + 1
            } else {
                p
            };
            let mut e = s;
            let mut v: i32 = 0;
            while e < input.len() && is_digit_exec(input[e])
                invariant
                    s <= e <= input@.len(),
                    scan_until(input@, s as int, |c: u8| !is_digit(c)) == scan_until(
                        input@,
                        e as int,
                        |c: u8| !is_digit(c),
                    ),
                    int_fold(input@, s as int, scan_until(input@, s as int, |c: u8| !is_digit(c)), 0)
                        == int_fold(input@, e as int, scan_until(input@, s as int, |c: u8| !is_digit(c)), v),
                decreases input@.len() - e,
            {
                proof {
                    lemma_scan_until_bounds(input@, e + 1, |c: u8| !is_digit(c));
                }
                v = v.wrapping_mul(10).wrapping_add((input[e] - 48) as i32);
                e += 1;
            }
            let val = if c == 45 {
                0i32.wrapping_sub(v)
            } else {
                v
            };
            return Token { kind: TokKind::IntLit, start: p, end: e, int_val: val, text: Vec::new() };
        } else if is_ident_start_exec(c) {
            let mut e = p;
            while e < input.len() && (is_ident_start_exec(input[e]) || is_digit_exec(input[e]))
                invariant
                    sp <= e <= input@.len(),
                    scan_until(input@, sp as int, |c: u8| !is_ident_char(c)) == scan_until(
                        input@,
                        e as int,
                        |c: u8| !is_ident_char(c),
                    ),
                decreases input@.len() - e,
            {
                e += 1;
            }
            let kind = match keyword_match(&input[p..e]) {
                Some(k) => TokKind::Kw(k),
                None => TokKind::Ident,
            };
            return Token { kind, start: p, end: e, int_val: 0, text: Vec::new() };
        } else {
            p += 1;
        }
    }
}

/// The type of a column.
#[derive(PartialEq, Eq, Structural, Clone, Copy)]
pub enum ColType {
    Int,
    Text,
}

/// A value as the specification sees it.
pub enum SqlVal {
    Null,
    Int(i32),
    Text(Seq<u8>),
}

/// A stored value.
pub enum Value {
    Null,
    Int(i32),
    Text(Vec<u8>),
}

impl View for Value {
    type V = SqlVal;

    open spec fn view(&self) -> SqlVal {
        match self {
            Value::Null => SqlVal::Null,
            Value::Int(i) => SqlVal::Int(*i),
            Value::Text(t) => SqlVal::Text(t@),
        }
    }
}

/// A column: its name and type.
pub struct Column {
    pub name: Vec<u8>,
    pub col_type: ColType,
}

/// A table slot: `MAX_ROWS` row slots, of which those marked in `used` hold rows.
pub struct Table {
    pub occupied: bool,
    pub name: Vec<u8>,
    pub columns: Vec<Column>,
    pub rows: Vec<Vec<Value>>,
    pub used: Vec<bool>,
}

/// The database: `MAX_TABLES` table slots.
pub struct Database {
    pub tables: Vec<Table>,
}

/// The values of row slot `r` of table `t`.
pub open spec fn row_vals(t: Table, r: int) -> Seq<SqlVal> {
    t.rows@[r]@.map_values(|v: Value| v@)
}

/// `a` and `b` are the same name up to ASCII case.
pub open spec fn ci_eq(a: Seq<u8>, b: Seq<u8>) -> bool {
    a.len() == b.len() && eq_ci_prefix(a, b, a.len() as int)
}

impl Table {
    /// Names and column counts within their limits, a full set of row slots, every row in
    /// use as wide as the table, and no row in use in an unused slot.
    pub open spec fn wf(&self) -> bool {
        &&& self.name@.len() <= MAX_NAME_LEN
        &&& self.columns@.len() <= MAX_COLUMNS
        &&& forall|c: int| 0 <= c < self.columns@.len() ==> (#[trigger] self.columns@[c]).name@.len() <= MAX_NAME_LEN
        &&& self.rows@.len() == MAX_ROWS
        &&& self.used@.len() == MAX_ROWS
        &&& forall|r: int| 0 <= r < MAX_ROWS && #[trigger] self.used@[r] ==> self.rows@[r]@.len() == self.columns@.len()
        &&& !self.occupied ==> forall|r: int| 0 <= r < MAX_ROWS ==> !#[trigger] self.used@[r]
    }

    /// The first column at or after `i` named `name` (up to case), among the first
    /// `MAX_COLUMNS`.
    pub open spec fn column_from(&self, name: Seq<u8>, i: int) -> Option<usize>
        decreases self.columns@.len() - i,
    {
        if i < 0 || i >= self.columns@.len() || i >= MAX_COLUMNS {
            None
        } else if ci_eq(self.columns@[i].name@, name) {
            Some(i as usize)
        } else {
            self.column_from(name, i + 1)
        }
    }

    /// The column named `name` (up to case), if any.
    pub open spec fn column_index(&self, name: Seq<u8>) -> Option<usize> {
        self.column_from(name, 0)
    }

    pub proof fn lemma_column_from(&self, name: Seq<u8>, i: int)
        requires
            0 <= i,
        ensures
            self.column_from(name, i) matches Some(c) ==> i <= c < self.columns@.len(),
        decreases self.columns@.len() - i,
    {
        if i < self.columns@.len() && i < MAX_COLUMNS && !ci_eq(self.columns@[i].name@, name) {
            self.lemma_column_from(name, i + 1);
        }
    }

    /// An unused table slot with no rows.
    pub fn new() -> (t: Table)
        ensures
            t.wf(),
            !t.occupied,
            t.columns@.len() == 0,
            t.name@.len() == 0,
    {
        let mut rows: Vec<Vec<Value>> = Vec::new();
        let mut used: Vec<bool> = Vec::new();
        let mut i: usize = 0;
        while i < MAX_ROWS
            invariant
                i <= MAX_ROWS,
                rows@.len() == i,
                used@.len() == i,
                forall|r: int| 0 <= r < i ==> !#[trigger] used@[r],
            decreases MAX_ROWS - i,
        {
            rows.push(Vec::new());
            used.push(false);
            i += 1;
        }
        Table { occupied: false, name: Vec::new(), columns: Vec::new(), rows, used }
    }

    /// The column named `name`, matched without regard to case.
    pub fn find_column(&self, name: &[u8]) -> (res: Option<usize>)
        ensures
            res == self.column_index(name@),
            res matches Some(c) ==> c < self.columns@.len(),
    {
        proof {
            self.lemma_column_from(name@, 0);
        }
        let mut i: usize = 0;
        while i < self.columns.len() && i < MAX_COLUMNS
            invariant
                i <= self.columns@.len(),
                self.column_index(name@) == self.column_from(name@, i as int),
            decreases self.columns@.len() - i,
        {
            let cn = self.columns[i].name.as_slice();
            if name_eq_ci(cn, cn.len(), name, name.len()) {
                return Some(i);
            }
            i += 1;
        }
        None
    }
}

impl Database {
    /// Every table slot is well formed.
    pub open spec fn wf(&self) -> bool {
        &&& self.tables@.len() == MAX_TABLES
        &&& forall|t: int| 0 <= t < MAX_TABLES ==> #[trigger] self.tables@[t].wf()
    }

    /// The first table in use at or after slot `i` named `name` (up to case).
    pub open spec fn table_from(&self, name: Seq<u8>, i: int) -> Option<usize>
        decreases MAX_TABLES - i,
    {
        if i < 0 || i >= MAX_TABLES {
            None
        } else if self.tables@[i].occupied && ci_eq(self.tables@[i].name@, name) {
            Some(i as usize)
        } else {
            self.table_from(name, i + 1)
        }
    }

    /// The slot of the table named `name` (up to case), if any.
    pub open spec fn table_index(&self, name: Seq<u8>) -> Option<usize> {
        self.table_from(name, 0)
    }

    /// The first unused table slot at or after `i`.
    pub open spec fn free_table_from(&self, i: int) -> Option<usize>
        decreases MAX_TABLES - i,
    {
        if i < 0 || i >= MAX_TABLES {
            None
        } else if !self.tables@[i].occupied {
            Some(i as usize)
        } else {
            self.free_table_from(i + 1)
        }
    }

    pub proof fn lemma_table_from(&self, name: Seq<u8>, i: int)
        requires
            0 <= i,
        ensures
            self.table_from(name, i) matches Some(t) ==> i <= t < MAX_TABLES && self.tables@[t as int].occupied,
        decreases MAX_TABLES - i,
    {
        if i < MAX_TABLES && !(self.tables@[i].occupied && ci_eq(self.tables@[i].name@, name)) {
            self.lemma_table_from(name, i + 1);
        }
    }

    pub proof fn lemma_free_table_from(&self, i: int)
        requires
            0 <= i,
        ensures
            self.free_table_from(i) matches Some(t) ==> i <= t < MAX_TABLES && !self.tables@[t as int].occupied,
        decreases MAX_TABLES - i,
    {
        if i < MAX_TABLES && self.tables@[i].occupied {
            self.lemma_free_table_from(i + 1);
        }
    }

    /// An empty database.
    pub fn new() -> (db: Database)
        ensures
            db.wf(),
            forall|t: int| 0 <= t < MAX_TABLES ==> !(#[trigger] db.tables@[t]).occupied,
    {
        let mut tables: Vec<Table> = Vec::new();
        let mut i: usize = 0;
        while i < MAX_TABLES
            invariant
                i <= MAX_TABLES,
                tables@.len() == i,
                forall|t: int| 0 <= t < i ==> (#[trigger] tables@[t]).wf() && !tables@[t].occupied,
            decreases MAX_TABLES - i,
        {
            tables.push(Table::new());
            i += 1;
        }
        Database { tables }
    }

    /// The slot of the table named `name`, matched without regard to case.
    pub fn find_table(&self, name: &[u8]) -> (res: Option<usize>)
        requires
            self.wf(),
        ensures
            res == self.table_index(name@),
            res matches Some(t) ==> t < MAX_TABLES && self.tables@[t as int].occupied,
    {
        proof {
            self.lemma_table_from(name@, 0);
        }
        let mut i: usize = 0;
        while i < MAX_TABLES
            invariant
                self.wf(),
                i <= MAX_TABLES,
                self.table_index(name@) == self.table_from(name@, i as int),
            decreases MAX_TABLES - i,
        {
            let tn = self.tables[i].name.as_slice();
            if self.tables[i].occupied && name_eq_ci(tn, tn.len(), name, name.len()) {
                return Some(i);
            }
            i += 1;
        }
        None
    }

    /// The first unused table slot.
    pub fn free_table(&self) -> (res: Option<usize>)
        requires
            self.wf(),
        ensures
            res == self.free_table_from(0),
            res matches Some(t) ==> t < MAX_TABLES && !self.tables@[t as int].occupied,
    {
        proof {
            self.lemma_free_table_from(0);
        }
        let mut i: usize = 0;
        while i < MAX_TABLES
            invariant
                self.wf(),
                i <= MAX_TABLES,
                self.free_table_from(0) == self.free_table_from(i as int),
            decreases MAX_TABLES - i,
        {
            if !self.tables[i].occupied {
                return Some(i);
            }
            i += 1;
        }
        None
    }
}

/// The value an integer or string literal token stands for.
pub open spec fn tok_value(t: SqlToken) -> SqlVal {
    if t.kind == TokKind::IntLit {
        SqlVal::Int(t.int_val)
    } else {
        SqlVal::Text(t.text)
    }
}

/// The text of an identifier token.
pub open spec fn tok_text(input: Seq<u8>, t: SqlToken) -> Seq<u8> {
    input.subrange(t.start, t.end)
}

/// The condition `col = value` read from `pos` on, with the column resolved in table `t`;
/// none when it is malformed or names no column.
pub open spec fn where_at(input: Seq<u8>, pos: int, t: Table) -> Option<(usize, SqlVal)> {
    let a = lex(input, pos);
    if a.kind != TokKind::Ident {
        None
    } else {
        match t.column_index(tok_text(input, a)) {
            None => None,
            Some(c) => {
                let b = lex(input, a.end);
                let v = lex(input, b.end);
                if b.kind != TokKind::Eq {
                    None
                } else if v.kind == TokKind::IntLit || v.kind == TokKind::StrLit {
                    Some((c, tok_value(v)))
                } else {
                    None
                }
            },
        }
    }
}

/// The value of a literal token.
fn token_value(t: Token) -> (res: Value)
    ensures
        (t@.kind == TokKind::IntLit || t@.kind == TokKind::StrLit) ==> res@ == tok_value(t@),
{
    if t.kind == TokKind::IntLit {
        Value::Int(t.int_val)
    } else {
        Value::Text(t.text)
    }
}

/// A token's end stays within the statement and its start comes before it.
proof fn lemma_lex_bounds(input: Seq<u8>, pos: int)
    requires
        0 <= pos <= input.len(),
    ensures
        pos <= lex(input, pos).end <= input.len(),
        lex(input, pos).kind == TokKind::Ident ==> pos <= lex(input, pos).start <= lex(input, pos).end,
    decreases input.len() - pos,
{
    reveal(lex);
    let p = scan_until(input, pos, |c: u8| !is_sql_space(c));
    lemma_scan_until_bounds(input, pos, |c: u8| !is_sql_space(c));
    if p < input.len() {
        let c = input[p];
        if c == 39 {
            lemma_str_body_bounds(input, p + 1, Seq::empty());
        } else if c == 45 || is_digit(c) {
            let s = if c == 45 { p + 1 } else { p };
            lemma_scan_until_bounds(input, s, |c: u8| !is_digit(c));
        } else if is_ident_start(c) {
            lemma_scan_until_bounds(input, p, |c: u8| !is_ident_char(c));
        } else if c != 40 && c != 41 && c != 44 && c != 42 && c != 61 {
            lemma_lex_bounds(input, p + 1);
        }
    }
}

proof fn lemma_str_body_bounds(input: Seq<u8>, pos: int, acc: Seq<u8>)
    requires
        0 <= pos <= input.len(),
    ensures
        pos <= str_body(input, pos, acc).1 <= input.len(),
    decreases input.len() - pos,
{
    if pos < input.len() {
        if input[pos] == 39 {
            if pos + 1 < input.len() && input[pos + 1] == 39 {
                lemma_str_body_bounds(input, pos + 2, keep(acc, 39));
            }
        } else {
            lemma_str_body_bounds(input, pos + 1, keep(acc, input[pos]));
        }
    }
}

/// Reads the condition of a `WHERE` clause.
pub fn parse_where(input: &[u8], pos: usize, t: &Table) -> (res: Option<(usize, Value)>)
    requires
        pos <= input@.len(),
    ensures
        match (res, where_at(input@, pos as int, *t)) {
            (None, None) => true,
            (Some((c, v)), Some((sc, sv))) => c == sc && v@ == sv,
            _ => false,
        },
        res matches Some((c, _)) ==> c < t.columns@.len(),
{
    let a = lex_at(input, pos);
    if a.kind != TokKind::Ident {
        return None;
    }
    proof {
        lemma_lex_bounds(input@, pos as int);
    }
    let c = match t.find_column(&input[a.start..a.end]) {
        Some(i) => i,
        None => {
            return None;
        },
    };
    let b = lex_at(input, a.end);
    if b.kind != TokKind::Eq {
        return None;
    }
    let v = lex_at(input, b.end);
    if v.kind == TokKind::IntLit || v.kind == TokKind::StrLit {
        Some((c, token_value(v)))
    } else {
        None
    }
}

/// Whether two values are the same value.
pub fn value_eq(a: &Value, b: &Value) -> (res: bool)
    ensures
        res == (a@ == b@),
{
    match (a, b) {
        (Value::Null, Value::Null) => true,
        (Value::Int(x), Value::Int(y)) => *x == *y,
        (Value::Text(x), Value::Text(y)) => bytes_eq(x.as_slice(), y.as_slice()),
        _ => false,
    }
}

/// A copy of a value.
pub fn copy_value(v: &Value) -> (res: Value)
    ensures
        res@ == v@,
{
    match v {
        Value::Null => Value::Null,
        Value::Int(x) => Value::Int(*x),
        Value::Text(t) => {
            let mut c: Vec<u8> = Vec::new();
            extend(&mut c, t.as_slice());
            Value::Text(c)
        },
    }
}

/// How a value is shown: `NULL`, an integer in decimal, or the text itself.
pub open spec fn value_text(v: SqlVal) -> Seq<u8> {
    match v {
        SqlVal::Null => lit("NULL"),
        SqlVal::Int(i) => signed_digits(i as int),
        SqlVal::Text(t) => t,
    }
}

/// Writes how a value is shown after `out`.
pub fn write_value(out: &mut Vec<u8>, v: &Value)
    ensures
        final(out)@ == old(out)@ + value_text(v@),
{
    match v {
        Value::Null => extend(out, "NULL".as_bytes()),
        Value::Int(x) => {
            let d = format_i32(*x);
            extend(out, d.as_slice());
        },
        Value::Text(t) => extend(out, t.as_slice()),
    }
}

/// A row passes the condition: it has no condition, or its value in the condition's column
/// is the condition's value.
pub open spec fn row_passes(row: Seq<SqlVal>, cond: Option<(usize, SqlVal)>) -> bool {
    match cond {
        None => true,
        Some((c, v)) => row[c as int] == v,
    }
}

/// The first `MAX_NAME_LEN` bytes of a name.
pub open spec fn short_name(s: Seq<u8>) -> Seq<u8> {
    s.take(min(s.len() as int, MAX_NAME_LEN as int))
}

/// The column definitions `name TYPE, ...)` read from `pos` on, after those in `cols`; an
/// error message when they are malformed or too many.
pub open spec fn columns_from(input: Seq<u8>, pos: int, cols: Seq<(Seq<u8>, ColType)>) -> Result<
    Seq<(Seq<u8>, ColType)>,
    Seq<u8>,
>
    decreases MAX_COLUMNS - cols.len(),
{
    let t = lex(input, pos);
    let ty = lex(input, t.end);
    let sep = lex(input, ty.end);
    if t.kind == TokKind::RParen {
        Ok(cols)
    } else if t.kind != TokKind::Ident {
        Err(lit("ERROR: expected column name\n"))
    } else if cols.len() >= MAX_COLUMNS {
        Err(lit("ERROR: too many columns\n"))
    } else if ty.kind != TokKind::Kw(Keyword::Int) && ty.kind != TokKind::Kw(Keyword::Text) {
        Err(lit("ERROR: expected INT or TEXT\n"))
    } else {
        let ct = if ty.kind == TokKind::Kw(Keyword::Int) {
            ColType::Int
        } else {
            ColType::Text
        };
        let more = cols.push((short_name(tok_text(input, t)), ct));
        if sep.kind == TokKind::RParen {
            Ok(more)
        } else if sep.kind != TokKind::Comma {
            Err(lit("ERROR: expected , or )\n"))
        } else {
            columns_from(input, sep.end, more)
        }
    }
}

/// The names and types of a list of columns.
pub open spec fn columns_view(cs: Seq<Column>) -> Seq<(Seq<u8>, ColType)> {
    cs.map_values(|c: Column| (c.name@, c.col_type))
}

/// `CREATE TABLE name (col TYPE, ...)` read from `pos` (just after `CREATE`): the free slot,
/// the name and the columns of the new table, or the error message.
pub open spec fn create_plan(db: Database, input: Seq<u8>, pos: int) -> Result<
    (usize, Seq<u8>, Seq<(Seq<u8>, ColType)>),
    Seq<u8>,
> {
    let t1 = lex(input, pos);
    let t2 = lex(input, t1.end);
    let name = tok_text(input, t2);
    let t3 = lex(input, t2.end);
    if t1.kind != TokKind::Kw(Keyword::Table) {
        Err(lit("ERROR: expected TABLE\n"))
    } else if t2.kind != TokKind::Ident {
        Err(lit("ERROR: expected table name\n"))
    } else if name.len() > MAX_NAME_LEN {
        Err(lit("ERROR: table name too long\n"))
    } else if db.table_index(name) is Some {
        Err(lit("ERROR: table already exists\n"))
    } else if db.free_table_from(0) is None {
        Err(lit("ERROR: max tables reached\n"))
    } else if t3.kind != TokKind::LParen {
        Err(lit("ERROR: expected (\n"))
    } else {
        match columns_from(input, t3.end, Seq::empty()) {
            Err(m) => Err(m),
            Ok(cols) => Ok((db.free_table_from(0)->0, name, cols)),
        }
    }
}

/// What `CREATE TABLE` does: on success the free slot holds the new, empty table.
pub open spec fn create_post(old: Database, new: Database, input: Seq<u8>, pos: int, res: Seq<u8>) -> bool {
    match create_plan(old, input, pos) {
        Err(m) => new == old && res == m,
        Ok((slot, name, cols)) => {
            let nt = new.tables@[slot as int];
            &&& same_except(old.tables@, new.tables@, slot as int)
            &&& nt.occupied
            &&& nt.name@ == name
            &&& columns_view(nt.columns@) == cols
            &&& forall|r: int| 0 <= r < MAX_ROWS ==> !#[trigger] nt.used@[r]
            &&& res == lit("OK: table created\n")
        },
    }
}

/// The first row slot at or after `i` that holds no row.
pub open spec fn free_row_from(t: Table, i: int) -> Option<usize>
    decreases MAX_ROWS - i,
{
    if i < 0 || i >= MAX_ROWS {
        None
    } else if !t.used@[i] {
        Some(i as usize)
    } else {
        free_row_from(t, i + 1)
    }
}

proof fn lemma_free_row_from(t: Table, i: int)
    requires
        0 <= i,
    ensures
        free_row_from(t, i) matches Some(r) ==> i <= r < MAX_ROWS && !t.used@[r as int],
    decreases MAX_ROWS - i,
{
    if i < MAX_ROWS && t.used@[i] {
        lemma_free_row_from(t, i + 1);
    }
}

/// The values `v, ...)` read from `pos` on, after those in `vals`, for a table of `n`
/// columns; an error message when they are malformed or too many.
pub open spec fn values_from(input: Seq<u8>, pos: int, vals: Seq<SqlVal>, n: nat) -> Result<Seq<SqlVal>, Seq<u8>>
    decreases n - vals.len(),
{
    let t = lex(input, pos);
    let sep = lex(input, t.end);
    if t.kind == TokKind::RParen {
        Ok(vals)
    } else if vals.len() >= n {
        Err(lit("ERROR: too many values\n"))
    } else if t.kind != TokKind::IntLit && t.kind != TokKind::StrLit {
        Err(lit("ERROR: expected value\n"))
    } else {
        let more = vals.push(tok_value(t));
        if sep.kind == TokKind::RParen {
            Ok(more)
        } else if sep.kind != TokKind::Comma {
            Err(lit("ERROR: expected , or )\n"))
        } else {
            values_from(input, sep.end, more, n)
        }
    }
}

/// `INSERT INTO name VALUES (v, ...)` read from `pos` (just after `INSERT`): the table, the
/// free row slot and the values, or the error message.
pub open spec fn insert_plan(db: Database, input: Seq<u8>, pos: int) -> Result<(usize, usize, Seq<SqlVal>), Seq<u8>> {
    let t1 = lex(input, pos);
    let t2 = lex(input, t1.end);
    let t3 = lex(input, t2.end);
    let t4 = lex(input, t3.end);
    if t1.kind != TokKind::Kw(Keyword::Into) {
        Err(lit("ERROR: expected INTO\n"))
    } else if t2.kind != TokKind::Ident {
        Err(lit("ERROR: expected table name\n"))
    } else if db.table_index(tok_text(input, t2)) is None {
        Err(lit("ERROR: table not found\n"))
    } else if t3.kind != TokKind::Kw(Keyword::Values) {
        Err(lit("ERROR: expected VALUES\n"))
    } else if t4.kind != TokKind::LParen {
        Err(lit("ERROR: expected (\n"))
    } else {
        let ti = db.table_index(tok_text(input, t2))->0;
        let t = db.tables@[ti as int];
        let n = t.columns@.len();
        if free_row_from(t, 0) is None {
            Err(lit("ERROR: table full\n"))
        } else {
            match values_from(input, t4.end, Seq::empty(), n) {
                Err(m) => Err(m),
                Ok(vals) => if vals.len() != n {
                    Err(lit("ERROR: column count mismatch\n"))
                } else {
                    Ok((ti, free_row_from(t, 0)->0, vals))
                },
            }
        }
    }
}

/// What `INSERT` does: on success the free row slot holds the new row.
pub open spec fn insert_post(old: Database, new: Database, input: Seq<u8>, pos: int, res: Seq<u8>) -> bool {
    match insert_plan(old, input, pos) {
        Err(m) => new == old && res == m,
        Ok((ti, r, vals)) => {
            let ot = old.tables@[ti as int];
            let nt = new.tables@[ti as int];
            &&& same_except(old.tables@, new.tables@, ti as int)
            &&& nt.occupied == ot.occupied
            &&& nt.name == ot.name
            &&& nt.columns == ot.columns
            &&& nt.used@ == ot.used@.update(r as int, true)
            &&& same_except(ot.rows@, nt.rows@, r as int)
            &&& row_vals(nt, r as int) == vals
            &&& res == lit("OK: 1 row inserted\n")
        },
    }
}

/// A copy of the first `MAX_NAME_LEN` bytes of a name.
fn short_copy(s: &[u8]) -> (res: Vec<u8>)
    ensures
        res@ == short_name(s@),
{
    let n = if s.len() > MAX_NAME_LEN {
        MAX_NAME_LEN
    } else {
        s.len()
    };
    let mut v: Vec<u8> = Vec::new();
    extend(&mut v, slice_prefix(s, n));
    v
}

impl Database {
    /// `CREATE TABLE name (col TYPE, ...)`, read from `pos` (just after `CREATE`).
    #[verifier::loop_isolation(false)]
    pub fn exec_create_table(&mut self, input: &[u8], pos: usize) -> (res: Vec<u8>)
        requires
            old(self).wf(),
            pos <= input@.len(),
        ensures
            final(self).wf(),
            create_post(*old(self), *final(self), input@, pos as int, res@),
    {
        proof {
            lemma_lex_bounds(input@, pos as int);
        }
        let t1 = lex_at(input, pos);
        if t1.kind != TokKind::Kw(Keyword::Table) {
            return lit_bytes("ERROR: expected TABLE\n");
        }
        proof {
            lemma_lex_bounds(input@, t1.end as int);
        }
        let t2 = lex_at(input, t1.end);
        if t2.kind != TokKind::Ident {
            return lit_bytes("ERROR: expected table name\n");
        }
        let name = &input[t2.start..t2.end];
        if name.len() > MAX_NAME_LEN {
            return lit_bytes("ERROR: table name too long\n");
        }
        if self.find_table(name).is_some() {
            return lit_bytes("ERROR: table already exists\n");
        }
        let slot = match self.free_table() {
            Some(i) => i,
            None => {
                return lit_bytes("ERROR: max tables reached\n");
            },
        };
        proof {
            lemma_lex_bounds(input@, t2.end as int);
        }
        let t3 = lex_at(input, t2.end);
        if t3.kind != TokKind::LParen {
            return lit_bytes("ERROR: expected (\n");
        }
        let ghost whole = columns_from(input@, t3.end as int, Seq::empty());
        let mut cols: Vec<Column> = Vec::new();
        assert(columns_view(cols@) =~= Seq::<(Seq<u8>, ColType)>::empty());
        let mut p = t3.end;
        loop
            invariant
                p <= input@.len(),
                cols@.len() <= MAX_COLUMNS,
                forall|c: int| 0 <= c < cols@.len() ==> (#[trigger] cols@[c]).name@.len() <= MAX_NAME_LEN,
                columns_from(input@, p as int, columns_view(cols@)) == whole,
                whole == columns_from(input@, t3.end as int, Seq::empty()),
            decreases MAX_COLUMNS - cols@.len(),
        {
            proof {
                lemma_lex_bounds(input@, p as int);
            }
            let t = lex_at(input, p);
            if t.kind == TokKind::RParen {
                break;
            }
            if t.kind != TokKind::Ident {
                return lit_bytes("ERROR: expected column name\n");
            }
            if cols.len() >= MAX_COLUMNS {
                return lit_bytes("ERROR: too many columns\n");
            }
            let cname = short_copy(&input[t.start..t.end]);
            proof {
                lemma_lex_bounds(input@, t.end as int);
            }
            let ty = lex_at(input, t.end);
            let ct = if ty.kind == TokKind::Kw(Keyword::Int) {
                ColType::Int
            } else if ty.kind == TokKind::Kw(Keyword::Text) {
                ColType::Text
            } else {
                return lit_bytes("ERROR: expected INT or TEXT\n");
            };
            let ghost before = cols@;
            cols.push(Column { name: cname, col_type: ct });
            assert(columns_view(cols@) =~= columns_view(before).push((short_name(tok_text(input@, t@)), ct)));
            proof {
                lemma_lex_bounds(input@, ty.end as int);
            }
            let sep = lex_at(input, ty.end);
            if sep.kind == TokKind::RParen {
                break;
            }
            if sep.kind != TokKind::Comma {
                return lit_bytes("ERROR: expected , or )\n");
            }
            p = sep.end;
        }
        let ghost start = *self;
        assert(self.tables@[slot as int].wf());
        let mut stored: Vec<u8> = Vec::new();
        extend(&mut stored, name);
        self.tables[slot].name = stored;
        self.tables[slot].columns = cols;
        self.tables[slot].occupied = true;
        proof {
            let nt = self.tables@[slot as int];
            assert(forall|r: int| 0 <= r < MAX_ROWS ==> !#[trigger] nt.used@[r]);
            assert(nt.wf());
            assert forall|t: int| 0 <= t < MAX_TABLES implies #[trigger] self.tables@[t].wf() by {
                if t != slot {
                    assert(self.tables@[t] == start.tables@[t]);
                }
            }
        }
        lit_bytes("OK: table created\n")
    }

    /// `INSERT INTO name VALUES (v, ...)`, read from `pos` (just after `INSERT`).
    #[verifier::loop_isolation(false)]
    pub fn exec_insert(&mut self, input: &[u8], pos: usize) -> (res: Vec<u8>)
        requires
            old(self).wf(),
            pos <= input@.len(),
        ensures
            final(self).wf(),
            insert_post(*old(self), *final(self), input@, pos as int, res@),
    {
        proof {
            lemma_lex_bounds(input@, pos as int);
        }
        let t1 = lex_at(input, pos);
        if t1.kind != TokKind::Kw(Keyword::Into) {
            return lit_bytes("ERROR: expected INTO\n");
        }
        proof {
            lemma_lex_bounds(input@, t1.end as int);
        }
        let t2 = lex_at(input, t1.end);
        if t2.kind != TokKind::Ident {
            return lit_bytes("ERROR: expected table name\n");
        }
        let ti = match self.find_table(&input[t2.start..t2.end]) {
            Some(i) => i,
            None => {
                return lit_bytes("ERROR: table not found\n");
            },
        };
        proof {
            lemma_lex_bounds(input@, t2.end as int);
        }
        let t3 = lex_at(input, t2.end);
        if t3.kind != TokKind::Kw(Keyword::Values) {
            return lit_bytes("ERROR: expected VALUES\n");
        }
        proof {
            lemma_lex_bounds(input@, t3.end as int);
        }
        let t4 = lex_at(input, t3.end);
        if t4.kind != TokKind::LParen {
            return lit_bytes("ERROR: expected (\n");
        }
        assert(self.tables@[ti as int].wf());
        let ghost tbl = self.tables@[ti as int];
        proof {
            lemma_free_row_from(tbl, 0);
        }
        let mut r: usize = 0;
        while r < MAX_ROWS && self.tables[ti].used[r]
            invariant
                self.wf(),
                ti < MAX_TABLES,
                tbl == self.tables@[ti as int],
                r <= MAX_ROWS,
                free_row_from(tbl, 0) == free_row_from(tbl, r as int),
            decreases MAX_ROWS - r,
        {
            r += 1;
        }
        if r >= MAX_ROWS {
            return lit_bytes("ERROR: table full\n");
        }
        let n = self.tables[ti].columns.len();
        let ghost whole = values_from(input@, t4.end as int, Seq::empty(), n as nat);
        let mut vals: Vec<Value> = Vec::new();
        assert(vals@.map_values(|v: Value| v@) =~= Seq::<SqlVal>::empty());
        let mut p = t4.end;
        loop
            invariant
                p <= input@.len(),
                vals@.len() <= n,
                values_from(input@, p as int, vals@.map_values(|v: Value| v@), n as nat) == whole,
                whole == values_from(input@, t4.end as int, Seq::empty(), n as nat),
            decreases n - vals@.len(),
        {
            proof {
                lemma_lex_bounds(input@, p as int);
            }
            let t = lex_at(input, p);
            if t.kind == TokKind::RParen {
                break;
            }
            if vals.len() >= n {
                return lit_bytes("ERROR: too many values\n");
            }
            if t.kind != TokKind::IntLit && t.kind != TokKind::StrLit {
                return lit_bytes("ERROR: expected value\n");
            }
            let ghost tv = t@;
            let tend = t.end;
            proof {
                lemma_lex_bounds(input@, tend as int);
            }
            let ghost before = vals@;
            vals.push(token_value(t));
            assert(vals@.map_values(|v: Value| v@) =~= before.map_values(|v: Value| v@).push(tok_value(tv)));
            let sep = lex_at(input, tend);
            if sep.kind == TokKind::RParen {
                break;
            }
            if sep.kind != TokKind::Comma {
                return lit_bytes("ERROR: expected , or )\n");
            }
            p = sep.end;
        }
        if vals.len() != n {
            return lit_bytes("ERROR: column count mismatch\n");
        }
        let ghost start = *self;
        self.tables[ti].rows[r] = vals;
        self.tables[ti].used[r] = true;
        proof {
            let nt = self.tables@[ti as int];
            assert forall|q: int| 0 <= q < MAX_ROWS && #[trigger] nt.used@[q] implies nt.rows@[q]@.len() == nt.columns@.len() by {
                if q != r {
                    assert(nt.rows@[q] == tbl.rows@[q]);
                }
            }
            assert(nt.wf());
            assert forall|t: int| 0 <= t < MAX_TABLES implies #[trigger] self.tables@[t].wf() by {
                if t != ti {
                    assert(self.tables@[t] == start.tables@[t]);
                }
            }
            assert(nt.used@ =~= tbl.used@.update(r as int, true));
        }
        lit_bytes("OK: 1 row inserted\n")
    }
}

/// The condition that follows token `t` when it is `WHERE`: none without `WHERE`, an error
/// message when the condition is malformed.
pub open spec fn cond_after(input: Seq<u8>, t: SqlToken, tbl: Table) -> Result<Option<(usize, SqlVal)>, Seq<u8>> {
    if t.kind == TokKind::Kw(Keyword::Where) {
        match where_at(input, t.end, tbl) {
            None => Err(lit("ERROR: invalid WHERE clause\n")),
            Some(w) => Ok(Some(w)),
        }
    } else {
        Ok(None)
    }
}

/// Row slot `r` holds a row that passes the condition.
pub open spec fn passes(t: Table, r: int, cond: Option<(usize, SqlVal)>) -> bool {
    t.used@[r] && row_passes(row_vals(t, r), cond)
}

/// How many of the first `n` row slots hold rows that pass the condition.
pub open spec fn pass_count(t: Table, cond: Option<(usize, SqlVal)>, n: int) -> nat
    decreases n,
{
    if n <= 0 {
        0
    } else {
        pass_count(t, cond, n - 1) + if passes(t, n - 1, cond) {
            1nat
        } else {
            0nat
        }
    }
}

proof fn lemma_pass_count_bound(t: Table, cond: Option<(usize, SqlVal)>, n: int)
    requires
        0 <= n,
    ensures
        pass_count(t, cond, n) <= n,
    decreases n,
{
    if n > 0 {
        lemma_pass_count_bound(t, cond, n - 1);
    }
}

/// `UPDATE name SET col = v [WHERE col = v]` read from `pos` (just after `UPDATE`): the
/// table, the column and value to set and the condition, or the error message.
pub open spec fn update_plan(db: Database, input: Seq<u8>, pos: int) -> Result<
    (usize, usize, SqlVal, Option<(usize, SqlVal)>),
    Seq<u8>,
> {
    let t1 = lex(input, pos);
    let t2 = lex(input, t1.end);
    let t3 = lex(input, t2.end);
    let t4 = lex(input, t3.end);
    let t5 = lex(input, t4.end);
    let t6 = lex(input, t5.end);
    if t1.kind != TokKind::Ident {
        Err(lit("ERROR: expected table name\n"))
    } else if db.table_index(tok_text(input, t1)) is None {
        Err(lit("ERROR: table not found\n"))
    } else {
        let ti = db.table_index(tok_text(input, t1))->0;
        let tbl = db.tables@[ti as int];
        if t2.kind != TokKind::Kw(Keyword::SetKw) {
            Err(lit("ERROR: expected SET\n"))
        } else if t3.kind != TokKind::Ident {
            Err(lit("ERROR: expected column name\n"))
        } else if tbl.column_index(tok_text(input, t3)) is None {
            Err(lit("ERROR: column not found\n"))
        } else if t4.kind != TokKind::Eq {
            Err(lit("ERROR: expected =\n"))
        } else if t5.kind != TokKind::IntLit && t5.kind != TokKind::StrLit {
            Err(lit("ERROR: expected value\n"))
        } else {
            match cond_after(input, t6, tbl) {
                Err(m) => Err(m),
                Ok(cond) => Ok((ti, tbl.column_index(tok_text(input, t3))->0, tok_value(t5), cond)),
            }
        }
    }
}

/// What `UPDATE` does: every row that passes the condition gets the value in the column.
pub open spec fn update_post(old: Database, new: Database, input: Seq<u8>, pos: int, res: Seq<u8>) -> bool {
    match update_plan(old, input, pos) {
        Err(m) => new == old && res == m,
        Ok((ti, col, val, cond)) => {
            let ot = old.tables@[ti as int];
            let nt = new.tables@[ti as int];
            &&& same_except(old.tables@, new.tables@, ti as int)
            &&& nt.occupied == ot.occupied
            &&& nt.name == ot.name
            &&& nt.columns == ot.columns
            &&& nt.used == ot.used
            &&& nt.rows@.len() == ot.rows@.len()
            &&& forall|r: int| 0 <= r < MAX_ROWS ==> if passes(ot, r, cond) {
                row_vals(nt, r) == row_vals(ot, r).update(col as int, val)
            } else {
                #[trigger] nt.rows@[r] == ot.rows@[r]
            }
            &&& res == lit("OK: ") + dec_digits(pass_count(ot, cond, MAX_ROWS as int)) + lit(" rows updated\n")
        },
    }
}

/// `DELETE FROM name [WHERE col = v]` read from `pos` (just after `DELETE`): the table and
/// the condition, or the error message.
pub open spec fn delete_plan(db: Database, input: Seq<u8>, pos: int) -> Result<(usize, Option<(usize, SqlVal)>), Seq<u8>> {
    let t1 = lex(input, pos);
    let t2 = lex(input, t1.end);
    let t3 = lex(input, t2.end);
    if t1.kind != TokKind::Kw(Keyword::From) {
        Err(lit("ERROR: expected FROM\n"))
    } else if t2.kind != TokKind::Ident {
        Err(lit("ERROR: expected table name\n"))
    } else if db.table_index(tok_text(input, t2)) is None {
        Err(lit("ERROR: table not found\n"))
    } else {
        let ti = db.table_index(tok_text(input, t2))->0;
        match cond_after(input, t3, db.tables@[ti as int]) {
            Err(m) => Err(m),
            Ok(cond) => Ok((ti, cond)),
        }
    }
}

/// What `DELETE` does: every row that passes the condition is removed.
pub open spec fn delete_post(old: Database, new: Database, input: Seq<u8>, pos: int, res: Seq<u8>) -> bool {
    match delete_plan(old, input, pos) {
        Err(m) => new == old && res == m,
        Ok((ti, cond)) => {
            let ot = old.tables@[ti as int];
            let nt = new.tables@[ti as int];
            &&& same_except(old.tables@, new.tables@, ti as int)
            &&& nt.occupied == ot.occupied
            &&& nt.name == ot.name
            &&& nt.columns == ot.columns
            &&& nt.rows == ot.rows
            &&& nt.used@.len() == ot.used@.len()
            &&& forall|r: int| 0 <= r < MAX_ROWS ==> #[trigger] nt.used@[r] == (ot.used@[r] && !passes(ot, r, cond))
            &&& res == lit("OK: ") + dec_digits(pass_count(ot, cond, MAX_ROWS as int)) + lit(" rows deleted\n")
        },
    }
}

/// `DROP TABLE name` read from `pos` (just after `DROP`): the table, or the error message.
pub open spec fn drop_plan(db: Database, input: Seq<u8>, pos: int) -> Result<usize, Seq<u8>> {
    let t1 = lex(input, pos);
    let t2 = lex(input, t1.end);
    if t1.kind != TokKind::Kw(Keyword::Table) {
        Err(lit("ERROR: expected TABLE\n"))
    } else if t2.kind != TokKind::Ident {
        Err(lit("ERROR: expected table name\n"))
    } else if db.table_index(tok_text(input, t2)) is None {
        Err(lit("ERROR: table not found\n"))
    } else {
        Ok(db.table_index(tok_text(input, t2))->0)
    }
}

/// What `DROP TABLE` does: the slot becomes unused, with no name, columns or rows.
pub open spec fn drop_post(old: Database, new: Database, input: Seq<u8>, pos: int, res: Seq<u8>) -> bool {
    match drop_plan(old, input, pos) {
        Err(m) => new == old && res == m,
        Ok(ti) => {
            let nt = new.tables@[ti as int];
            &&& same_except(old.tables@, new.tables@, ti as int)
            &&& !nt.occupied
            &&& nt.name@.len() == 0
            &&& nt.columns@.len() == 0
            &&& forall|r: int| 0 <= r < MAX_ROWS ==> !#[trigger] nt.used@[r]
            &&& res == lit("OK: table dropped\n")
        },
    }
}

/// Reads the condition that follows token `t` when it is `WHERE`.
fn read_cond(input: &[u8], t: &Token, tbl: &Table) -> (res: Result<Option<(usize, Value)>, Vec<u8>>)
    requires
        t.end <= input@.len(),
    ensures
        match (res, cond_after(input@, t@, *tbl)) {
            (Err(m), Err(sm)) => m@ == sm,
            (Ok(None), Ok(None)) => true,
            (Ok(Some((c, v))), Ok(Some((sc, sv)))) => c == sc && v@ == sv && c < tbl.columns@.len(),
            _ => false,
        },
{
    if t.kind == TokKind::Kw(Keyword::Where) {
        match parse_where(input, t.end, tbl) {
            None => Err(lit_bytes("ERROR: invalid WHERE clause\n")),
            Some(w) => Ok(Some(w)),
        }
    } else {
        Ok(None)
    }
}

/// Whether a row passes a condition.
fn cond_holds(row: &Vec<Value>, cond: &Option<(usize, Value)>) -> (res: bool)
    requires
        cond matches Some((c, _)) ==> c < row@.len(),
    ensures
        res == row_passes(
            row@.map_values(|v: Value| v@),
            match cond {
                None => None,
                Some((c, v)) => Some((*c, v@)),
            },
        ),
{
    match cond {
        None => true,
        Some((c, v)) => value_eq(&row[*c], v),
    }
}

/// The condition as the specification sees it.
pub open spec fn cond_view(cond: Option<(usize, Value)>) -> Option<(usize, SqlVal)> {
    match cond {
        None => None,
        Some((c, v)) => Some((c, v@)),
    }
}

impl Database {
    /// `UPDATE name SET col = v [WHERE col = v]`, read from `pos` (just after `UPDATE`).
    #[verifier::loop_isolation(false)]
    pub fn exec_update(&mut self, input: &[u8], pos: usize) -> (res: Vec<u8>)
        requires
            old(self).wf(),
            pos <= input@.len(),
        ensures
            final(self).wf(),
            update_post(*old(self), *final(self), input@, pos as int, res@),
    {
        proof {
            lemma_lex_bounds(input@, pos as int);
        }
        let t1 = lex_at(input, pos);
        if t1.kind != TokKind::Ident {
            return lit_bytes("ERROR: expected table name\n");
        }
        let ti = match self.find_table(&input[t1.start..t1.end]) {
            Some(i) => i,
            None => {
                return lit_bytes("ERROR: table not found\n");
            },
        };
        assert(self.tables@[ti as int].wf());
        proof {
            lemma_lex_bounds(input@, t1.end as int);
        }
        let t2 = lex_at(input, t1.end);
        if t2.kind != TokKind::Kw(Keyword::SetKw) {
            return lit_bytes("ERROR: expected SET\n");
        }
        proof {
            lemma_lex_bounds(input@, t2.end as int);
        }
        let t3 = lex_at(input, t2.end);
        if t3.kind != TokKind::Ident {
            return lit_bytes("ERROR: expected column name\n");
        }
        let col = match self.tables[ti].find_column(&input[t3.start..t3.end]) {
            Some(c) => c,
            None => {
                return lit_bytes("ERROR: column not found\n");
            },
        };
        proof {
            lemma_lex_bounds(input@, t3.end as int);
        }
        let t4 = lex_at(input, t3.end);
        if t4.kind != TokKind::Eq {
            return lit_bytes("ERROR: expected =\n");
        }
        proof {
            lemma_lex_bounds(input@, t4.end as int);
        }
        let t5 = lex_at(input, t4.end);
        if t5.kind != TokKind::IntLit && t5.kind != TokKind::StrLit {
            return lit_bytes("ERROR: expected value\n");
        }
        let t5_end = t5.end;
        proof {
            lemma_lex_bounds(input@, t5_end as int);
        }
        let val = token_value(t5);
        let t6 = lex_at(input, t5_end);
        let cond = match read_cond(input, &t6, &self.tables[ti]) {
            Err(m) => {
                return m;
            },
            Ok(c) => c,
        };
        let ghost start = *self;
        let ghost ot = self.tables@[ti as int];
        let ghost sc = cond_view(cond);
        let mut count: u32 = 0;
        let mut r: usize = 0;
        while r < MAX_ROWS
            invariant
                0 <= r <= MAX_ROWS,
                self.tables@.len() == MAX_TABLES,
                same_except(start.tables@, self.tables@, ti as int),
                self.tables@[ti as int].occupied == ot.occupied,
                self.tables@[ti as int].name == ot.name,
                self.tables@[ti as int].columns == ot.columns,
                self.tables@[ti as int].used == ot.used,
                self.tables@[ti as int].rows@.len() == MAX_ROWS,
                forall|q: int| 0 <= q < r ==> if passes(ot, q, sc) {
                    row_vals(self.tables@[ti as int], q) == row_vals(ot, q).update(col as int, val@)
                        && self.tables@[ti as int].rows@[q]@.len() == ot.rows@[q]@.len()
                } else {
                    #[trigger] self.tables@[ti as int].rows@[q] == ot.rows@[q]
                },
                forall|q: int| r <= q < MAX_ROWS ==> #[trigger] self.tables@[ti as int].rows@[q] == ot.rows@[q],
                count == pass_count(ot, sc, r as int),
            decreases MAX_ROWS - r,
        {
            proof {
                lemma_pass_count_bound(ot, sc, r as int);
            }
            if self.tables[ti].used[r] && cond_holds(&self.tables[ti].rows[r], &cond) {
                let ghost before = self.tables@[ti as int].rows@;
                let nv = copy_value(&val);
                self.tables[ti].rows[r][col] = nv;
                count = count + 1;
                proof {
                    let nt = self.tables@[ti as int];
                    assert(row_vals(nt, r as int) =~= row_vals(ot, r as int).update(col as int, val@));
                    assert forall|q: int| 0 <= q < MAX_ROWS && q != r implies #[trigger] nt.rows@[q] == before[q] by {}
                }
            }
            r += 1;
        }
        proof {
            let nt = self.tables@[ti as int];
            assert forall|q: int| 0 <= q < MAX_ROWS && #[trigger] nt.used@[q] implies nt.rows@[q]@.len() == nt.columns@.len() by {
                if !passes(ot, q, sc) {
                    assert(nt.rows@[q] == ot.rows@[q]);
                }
            }
            assert(nt.wf());
            assert forall|t: int| 0 <= t < MAX_TABLES implies #[trigger] self.tables@[t].wf() by {
                if t != ti {
                    assert(self.tables@[t] == start.tables@[t]);
                }
            }
        }
        let mut out = lit_bytes("OK: ");
        let d = format_u32(count);
        extend(&mut out, d.as_slice());
        extend(&mut out, " rows updated\n".as_bytes());
        out
    }

    /// `DELETE FROM name [WHERE col = v]`, read from `pos` (just after `DELETE`).
    #[verifier::loop_isolation(false)]
    pub fn exec_delete(&mut self, input: &[u8], pos: usize) -> (res: Vec<u8>)
        requires
            old(self).wf(),
            pos <= input@.len(),
        ensures
            final(self).wf(),
            delete_post(*old(self), *final(self), input@, pos as int, res@),
    {
        proof {
            lemma_lex_bounds(input@, pos as int);
        }
        let t1 = lex_at(input, pos);
        if t1.kind != TokKind::Kw(Keyword::From) {
            return lit_bytes("ERROR: expected FROM\n");
        }
        proof {
            lemma_lex_bounds(input@, t1.end as int);
        }
        let t2 = lex_at(input, t1.end);
        if t2.kind != TokKind::Ident {
            return lit_bytes("ERROR: expected table name\n");
        }
        let ti = match self.find_table(&input[t2.start..t2.end]) {
            Some(i) => i,
            None => {
                return lit_bytes("ERROR: table not found\n");
            },
        };
        assert(self.tables@[ti as int].wf());
        proof {
            lemma_lex_bounds(input@, t2.end as int);
        }
        let t3 = lex_at(input, t2.end);
        let cond = match read_cond(input, &t3, &self.tables[ti]) {
            Err(m) => {
                return m;
            },
            Ok(c) => c,
        };
        let ghost start = *self;
        let ghost ot = self.tables@[ti as int];
        let ghost sc = cond_view(cond);
        let mut count: u32 = 0;
        let mut r: usize = 0;
        while r < MAX_ROWS
            invariant
                0 <= r <= MAX_ROWS,
                self.tables@.len() == MAX_TABLES,
                same_except(start.tables@, self.tables@, ti as int),
                self.tables@[ti as int].occupied == ot.occupied,
                self.tables@[ti as int].name == ot.name,
                self.tables@[ti as int].columns == ot.columns,
                self.tables@[ti as int].rows == ot.rows,
                self.tables@[ti as int].used@.len() == MAX_ROWS,
                forall|q: int| 0 <= q < r ==> #[trigger] self.tables@[ti as int].used@[q] == (ot.used@[q] && !passes(ot, q, sc)),
                forall|q: int| r <= q < MAX_ROWS ==> #[trigger] self.tables@[ti as int].used@[q] == ot.used@[q],
                count == pass_count(ot, sc, r as int),
            decreases MAX_ROWS - r,
        {
            proof {
                lemma_pass_count_bound(ot, sc, r as int);
            }
            if self.tables[ti].used[r] && cond_holds(&self.tables[ti].rows[r], &cond) {
                self.tables[ti].used[r] = false;
                count = count + 1;
            }
            r += 1;
        }
        proof {
            let nt = self.tables@[ti as int];
            assert(nt.wf());
            assert forall|t: int| 0 <= t < MAX_TABLES implies #[trigger] self.tables@[t].wf() by {
                if t != ti {
                    assert(self.tables@[t] == start.tables@[t]);
                }
            }
        }
        let mut out = lit_bytes("OK: ");
        let d = format_u32(count);
        extend(&mut out, d.as_slice());
        extend(&mut out, " rows deleted\n".as_bytes());
        out
    }

    /// `DROP TABLE name`, read from `pos` (just after `DROP`).
    pub fn exec_drop_table(&mut self, input: &[u8], pos: usize) -> (res: Vec<u8>)
        requires
            old(self).wf(),
            pos <= input@.len(),
        ensures
            final(self).wf(),
            drop_post(*old(self), *final(self), input@, pos as int, res@),
    {
        proof {
            lemma_lex_bounds(input@, pos as int);
        }
        let t1 = lex_at(input, pos);
        if t1.kind != TokKind::Kw(Keyword::Table) {
            return lit_bytes("ERROR: expected TABLE\n");
        }
        proof {
            lemma_lex_bounds(input@, t1.end as int);
        }
        let t2 = lex_at(input, t1.end);
        if t2.kind != TokKind::Ident {
            return lit_bytes("ERROR: expected table name\n");
        }
        let ti = match self.find_table(&input[t2.start..t2.end]) {
            Some(i) => i,
            None => {
                return lit_bytes("ERROR: table not found\n");
            },
        };
        let ghost start = *self;
        self.tables[ti] = Table::new();
        assert forall|t: int| 0 <= t < MAX_TABLES implies #[trigger] self.tables@[t].wf() by {
            if t != ti {
                assert(self.tables@[t] == start.tables@[t]);
            }
        }
        lit_bytes("OK: table dropped\n")
    }
}

/// Items separated by tabs.
pub open spec fn tab_join(items: Seq<Seq<u8>>) -> Seq<u8>
    decreases items.len(),
{
    if items.len() == 0 {
        Seq::empty()
    } else if items.len() == 1 {
        items[0]
    } else {
        tab_join(items.drop_last()) + lit("\t") + items.last()
    }
}

/// The column names listed `name, ...` starting with token `cur`, after those in `names`
/// (each cut to `MAX_NAME_LEN`), and the token that follows the list; an error message
/// when the list is malformed or too long.
pub open spec fn name_list(input: Seq<u8>, cur: SqlToken, names: Seq<Seq<u8>>) -> Result<
    (Seq<Seq<u8>>, SqlToken),
    Seq<u8>,
>
    decreases MAX_COLUMNS - names.len(),
{
    if cur.kind != TokKind::Ident {
        Err(lit("ERROR: expected column name\n"))
    } else if names.len() >= MAX_COLUMNS {
        Err(lit("ERROR: too many columns\n"))
    } else {
        let more = names.push(short_name(tok_text(input, cur)));
        let nx = lex(input, cur.end);
        if nx.kind == TokKind::Comma {
            name_list(input, lex(input, nx.end), more)
        } else {
            Ok((more, nx))
        }
    }
}

/// Every name is a column of the table.
pub open spec fn all_resolve(t: Table, names: Seq<Seq<u8>>) -> bool {
    forall|i: int| 0 <= i < names.len() ==> (#[trigger] t.column_index(names[i])) is Some
}

/// The columns that the names stand for.
pub open spec fn resolved(t: Table, names: Seq<Seq<u8>>) -> Seq<usize> {
    Seq::new(names.len(), |i: int| t.column_index(names[i])->0)
}

/// All the columns of a table, in order.
pub open spec fn all_columns(t: Table) -> Seq<usize> {
    Seq::new(t.columns@.len(), |i: int| i as usize)
}

/// `SELECT * | col, ... FROM name [WHERE col = v]` read from `pos` (just after `SELECT`):
/// the table, the columns to show and the condition, or the error message.
pub open spec fn select_plan(db: Database, input: Seq<u8>, pos: int) -> Result<
    (usize, Seq<usize>, Option<(usize, SqlVal)>),
    Seq<u8>,
> {
    let t1 = lex(input, pos);
    if t1.kind == TokKind::Star {
        let t2 = lex(input, t1.end);
        let t3 = lex(input, t2.end);
        let t4 = lex(input, t3.end);
        if t2.kind != TokKind::Kw(Keyword::From) {
            Err(lit("ERROR: expected FROM\n"))
        } else if t3.kind != TokKind::Ident {
            Err(lit("ERROR: expected table name\n"))
        } else if db.table_index(tok_text(input, t3)) is None {
            Err(lit("ERROR: table not found\n"))
        } else {
            let ti = db.table_index(tok_text(input, t3))->0;
            let tbl = db.tables@[ti as int];
            match cond_after(input, t4, tbl) {
                Err(m) => Err(m),
                Ok(cond) => Ok((ti, all_columns(tbl), cond)),
            }
        }
    } else {
        match name_list(input, t1, Seq::empty()) {
            Err(m) => Err(m),
            Ok((names, nx)) => {
                let t3 = lex(input, nx.end);
                let t4 = lex(input, t3.end);
                if nx.kind != TokKind::Kw(Keyword::From) {
                    Err(lit("ERROR: expected FROM\n"))
                } else if t3.kind != TokKind::Ident {
                    Err(lit("ERROR: expected table name\n"))
                } else if db.table_index(tok_text(input, t3)) is None {
                    Err(lit("ERROR: table not found\n"))
                } else {
                    let ti = db.table_index(tok_text(input, t3))->0;
                    let tbl = db.tables@[ti as int];
                    if !all_resolve(tbl, names) {
                        Err(lit("ERROR: column not found\n"))
                    } else {
                        match cond_after(input, t4, tbl) {
                            Err(m) => Err(m),
                            Ok(cond) => Ok((ti, resolved(tbl, names), cond)),
                        }
                    }
                }
            },
        }
    }
}

/// The header line of a result: the names of the shown columns.
pub open spec fn header_line(t: Table, cols: Seq<usize>) -> Seq<u8> {
    tab_join(cols.map_values(|c: usize| t.columns@[c as int].name@)) + lit("\n")
}

/// The line of a result for a row: its values in the shown columns.
pub open spec fn row_line(row: Seq<SqlVal>, cols: Seq<usize>) -> Seq<u8> {
    tab_join(cols.map_values(|c: usize| value_text(row[c as int]))) + lit("\n")
}

/// The lines for the rows from slot `r` on that pass the condition, in slot order.
pub open spec fn rows_out(t: Table, cols: Seq<usize>, cond: Option<(usize, SqlVal)>, r: int) -> Seq<u8>
    decreases MAX_ROWS - r,
{
    if r < 0 || r >= MAX_ROWS {
        Seq::empty()
    } else {
        (if passes(t, r, cond) {
            row_line(row_vals(t, r), cols)
        } else {
            Seq::empty()
        }) + rows_out(t, cols, cond, r + 1)
    }
}

/// A row passes a `WHERE col = v` condition exactly when its value in that column is `v`:
/// the same integer, the same text (same length and the same bytes), or both null; values of
/// different kinds never match.  With no condition every row passes.
pub proof fn law_where_is_equality(row: Seq<SqlVal>, c: usize, v: SqlVal)
    ensures
        row_passes(row, None),
        row_passes(row, Some((c, v))) <==> match (row[c as int], v) {
            (SqlVal::Int(a), SqlVal::Int(b)) => a == b,
            (SqlVal::Text(a), SqlVal::Text(b)) => a.len() == b.len() && forall|i: int| 0 <= i < a.len() ==> a[i] == b[i],
            (SqlVal::Null, SqlVal::Null) => true,
            _ => false,
        },
{
    match (row[c as int], v) {
        (SqlVal::Text(a), SqlVal::Text(b)) => {
            if a.len() == b.len() && forall|i: int| 0 <= i < a.len() ==> a[i] == b[i] {
                assert(a =~= b);
            }
        },
        _ => {},
    }
}

/// A row slot of a table takes part in a `WHERE col = v` result exactly when it is in use and
/// its value in that column is `v`.
pub proof fn law_where_selects_equal_rows(t: Table, r: int, c: usize, v: SqlVal)
    ensures
        passes(t, r, Some((c, v))) <==> t.used@[r] && row_vals(t, r)[c as int] == v,
{
}

/// Folding digits goes one digit at a time from the left: the last digit comes in after all
/// the others.
proof fn lemma_int_fold_last(input: Seq<u8>, pos: int, end: int, acc: i32)
    requires
        pos < end,
    ensures
        int_fold(input, pos, end, acc) == int_fold(input, pos, end - 1, acc).wrapping_mul(10).wrapping_add(
            (input[end - 1] - 48) as i32,
        ),
    decreases end - pos,
{
    let next = acc.wrapping_mul(10).wrapping_add((input[pos] - 48) as i32);
    assert(int_fold(input, pos, end, acc) == int_fold(input, pos + 1, end, next));
    if pos < end - 1 {
        assert(int_fold(input, pos, end - 1, acc) == int_fold(input, pos + 1, end - 1, next));
        lemma_int_fold_last(input, pos + 1, end, next);
    } else {
        assert(int_fold(input, pos + 1, end, next) == next);
        assert(int_fold(input, pos, end - 1, acc) == acc);
    }
}

/// The decimal value of digits is at least that of their leading part.
proof fn lemma_digits_value_grows(d: Seq<u8>)
    requires
        d.len() > 0,
        all_digits(d),
    ensures
        digits_value(d.drop_last()) * 10 <= digits_value(d),
{
}

/// Digits whose decimal value fits an `i32` are read as that value.
pub proof fn law_int_fold_decimal(input: Seq<u8>, pos: int, end: int)
    requires
        0 <= pos <= end <= input.len(),
        all_digits(input.subrange(pos, end)),
        digits_value(input.subrange(pos, end)) <= i32::MAX,
    ensures
        int_fold(input, pos, end, 0) as int == digits_value(input.subrange(pos, end)) as int,
    decreases end - pos,
{
    let d = input.subrange(pos, end);
    if pos < end {
        let d0 = input.subrange(pos, end - 1);
        assert(d.drop_last() =~= d0);
        assert(all_digits(d0)) by {
            assert forall|i: int| 0 <= i < d0.len() implies is_digit(#[trigger] d0[i]) by {
                assert(d0[i] == d[i]);
            }
        }
        lemma_digits_value_grows(d);
        law_int_fold_decimal(input, pos, end - 1);
        lemma_int_fold_last(input, pos, end, 0);
        let prev = int_fold(input, pos, end - 1, 0);
        assert(is_digit(d[d.len() - 1]));
        let dig = (input[end - 1] - 48) as i32;
        assert(prev as int * 10 + dig as int == digits_value(d));
        assert(prev.wrapping_mul(10) as int == prev as int * 10);
        assert(prev.wrapping_mul(10).wrapping_add(dig) as int == prev as int * 10 + dig as int);
    } else {
        assert(d.len() == 0);
    }
}

/// An integer literal is read in decimal: at a digit, the token is an integer literal over
/// the run of digits there, and its value is their decimal value (when that fits an `i32`);
/// after a `-`, the same with the value negated.
pub proof fn law_int_literal_decimal(input: Seq<u8>, pos: int)
    requires
        0 <= pos < input.len(),
        is_digit(input[pos]) || input[pos] == 45,
    ensures
        ({
            let t = lex(input, pos);
            let s = if input[pos] == 45 {
                pos + 1
            } else {
                pos
            };
            let digits = input.subrange(s, t.end);
            &&& t.kind == TokKind::IntLit
            &&& t.start == pos
            &&& s <= t.end <= input.len()
            &&& all_digits(digits)
            &&& (t.end == input.len() || !is_digit(input[t.end]))
            &&& digits_value(digits) <= i32::MAX ==> t.int_val as int == if input[pos] == 45 {
                -(digits_value(digits) as int)
            } else {
                digits_value(digits) as int
            }
        }),
{
    reveal(lex);
    assert(!is_sql_space(input[pos]));
    lemma_scan_until_first(input, pos, pos, |c: u8| !is_sql_space(c));
    let s = if input[pos] == 45 {
        pos + 1
    } else {
        pos
    };
    let e = scan_until(input, s, |c: u8| !is_digit(c));
    lemma_scan_until_bounds(input, s, |c: u8| !is_digit(c));
    let digits = input.subrange(s, e);
    assert forall|i: int| 0 <= i < digits.len() implies is_digit(#[trigger] digits[i]) by {
        assert(digits[i] == input[s + i]);
    }
    if digits_value(digits) <= i32::MAX {
        law_int_fold_decimal(input, s, e);
    }
}

/// The lines from slot `i` on are those from slots `i..r` followed by those from slot `r` on.
proof fn lemma_rows_out_suffix(t: Table, cols: Seq<usize>, cond: Option<(usize, SqlVal)>, i: int, r: int)
    requires
        0 <= i <= r <= MAX_ROWS,
    ensures
        exists|pre: Seq<u8>| rows_out(t, cols, cond, i) == pre + rows_out(t, cols, cond, r),
    decreases r - i,
{
    if i == r {
        assert(rows_out(t, cols, cond, i) == Seq::<u8>::empty() + rows_out(t, cols, cond, r));
    } else {
        lemma_rows_out_suffix(t, cols, cond, i + 1, r);
        let pre = choose|pre: Seq<u8>| rows_out(t, cols, cond, i + 1) == pre + rows_out(t, cols, cond, r);
        let here = if passes(t, i, cond) {
            row_line(row_vals(t, i), cols)
        } else {
            Seq::<u8>::empty()
        };
        assert(rows_out(t, cols, cond, i) == here + rows_out(t, cols, cond, i + 1));
        assert(rows_out(t, cols, cond, i) =~= (here + pre) + rows_out(t, cols, cond, r));
    }
}

/// A row that an `INSERT` stores is among the rows a `SELECT` of its table lists: for any
/// columns shown and any condition the new row passes, the lines for the table's rows hold
/// the new row's line.
pub proof fn law_select_shows_inserted_row(
    old: Database,
    new: Database,
    input: Seq<u8>,
    pos: int,
    res: Seq<u8>,
    ti: usize,
    r: usize,
    vals: Seq<SqlVal>,
    cols: Seq<usize>,
    cond: Option<(usize, SqlVal)>,
)
    requires
        old.wf(),
        insert_post(old, new, input, pos, res),
        insert_plan(old, input, pos) == Ok::<(usize, usize, Seq<SqlVal>), Seq<u8>>((ti, r, vals)),
        row_passes(vals, cond),
    ensures
        exists|pre: Seq<u8>, post: Seq<u8>| rows_out(new.tables@[ti as int], cols, cond, 0) == pre + row_line(vals, cols) + post,
{
    let t1 = lex(input, pos);
    let t2 = lex(input, t1.end);
    old.lemma_table_from(tok_text(input, t2), 0);
    let ot = old.tables@[ti as int];
    assert(ot.wf());
    lemma_free_row_from(ot, 0);
    let nt = new.tables@[ti as int];
    assert(nt.used@[r as int]);
    assert(passes(nt, r as int, cond));
    lemma_rows_out_suffix(nt, cols, cond, 0, r as int);
    let pre = choose|pre: Seq<u8>| rows_out(nt, cols, cond, 0) == pre + rows_out(nt, cols, cond, r as int);
    let post = rows_out(nt, cols, cond, r + 1);
    assert(rows_out(nt, cols, cond, r as int) == row_line(vals, cols) + post);
    assert(rows_out(nt, cols, cond, 0) == pre + row_line(vals, cols) + post);
}

/// An answer as sent: its first `MAX_SQL_RESPONSE` bytes.
pub open spec fn sql_capped(s: Seq<u8>) -> Seq<u8> {
    if s.len() <= MAX_SQL_RESPONSE {
        s
    } else {
        s.take(MAX_SQL_RESPONSE as int)
    }
}

/// The answer to `SELECT`: the header and the lines of the rows that pass the condition.
pub open spec fn select_reply(db: Database, input: Seq<u8>, pos: int) -> Seq<u8> {
    match select_plan(db, input, pos) {
        Err(m) => m,
        Ok((ti, cols, cond)) => {
            let t = db.tables@[ti as int];
            sql_capped(header_line(t, cols) + rows_out(t, cols, cond, 0))
        },
    }
}

/// Writes the items separated by tabs, and a newline, after `out`.
fn push_tab_line(out: &mut Vec<u8>, items: &Vec<Vec<u8>>)
    ensures
        final(out)@ == old(out)@ + tab_join(items@.map_values(|v: Vec<u8>| v@)) + lit("\n"),
{
    let ghost start = out@;
    let ghost all = items@.map_values(|v: Vec<u8>| v@);
    let mut i: usize = 0;
    while i < items.len()
        invariant
            i <= items@.len(),
            all == items@.map_values(|v: Vec<u8>| v@),
            out@ == start + tab_join(all.take(i as int)),
        decreases items@.len() - i,
    {
        if i > 0 {
            extend(out, "\t".as_bytes());
        }
        extend(out, items[i].as_slice());
        proof {
            let t = all.take(i + 1);
            assert(t.drop_last() =~= all.take(i as int));
            assert(out@ =~= start + tab_join(t));
        }
        i += 1;
    }
    assert(all.take(i as int) =~= all);
    extend(out, "\n".as_bytes());
}

fn value_bytes(v: &Value) -> (res: Vec<u8>)
    ensures
        res@ == value_text(v@),
{
    let mut out: Vec<u8> = Vec::new();
    write_value(&mut out, v);
    out
}

impl Database {
    /// Parses `SELECT` from `pos` and resolves it against the database: the table, the
    /// columns to show and the condition, or the error message.
    #[verifier::loop_isolation(false)]
    fn plan_select(&self, input: &[u8], pos: usize) -> (res: Result<(usize, Vec<usize>, Option<(usize, Value)>), Vec<u8>>)
        requires
            self.wf(),
            pos <= input@.len(),
        ensures
            match (res, select_plan(*self, input@, pos as int)) {
                (Err(m), Err(sm)) => m@ == sm,
                (Ok((ti, cols, cond)), Ok((sti, scols, scond))) => {
                    &&& ti == sti
                    &&& cols@ == scols
                    &&& cond_view(cond) == scond
                    &&& ti < MAX_TABLES
                    &&& forall|k: int| 0 <= k < cols@.len() ==> cols@[k] < self.tables@[ti as int].columns@.len()
                    &&& cond matches Some((c, _)) ==> c < self.tables@[ti as int].columns@.len()
                },
                _ => false,
            },
    {
        proof {
            lemma_lex_bounds(input@, pos as int);
        }
        let t1 = lex_at(input, pos);
        let mut cols: Vec<usize> = Vec::new();
        let ti;
        let cond;
        if t1.kind == TokKind::Star {
            proof {
                lemma_lex_bounds(input@, t1.end as int);
            }
            let t2 = lex_at(input, t1.end);
            if t2.kind != TokKind::Kw(Keyword::From) {
                return Err(lit_bytes("ERROR: expected FROM\n"));
            }
            proof {
                lemma_lex_bounds(input@, t2.end as int);
            }
            let t3 = lex_at(input, t2.end);
            if t3.kind != TokKind::Ident {
                return Err(lit_bytes("ERROR: expected table name\n"));
            }
            ti = match self.find_table(&input[t3.start..t3.end]) {
                Some(i) => i,
                None => {
                    return Err(lit_bytes("ERROR: table not found\n"));
                },
            };
            assert(self.tables@[ti as int].wf());
            proof {
                lemma_lex_bounds(input@, t3.end as int);
            }
            let t4 = lex_at(input, t3.end);
            cond = match read_cond(input, &t4, &self.tables[ti]) {
                Err(m) => {
                    return Err(m);
                },
                Ok(c) => c,
            };
            let n = self.tables[ti].columns.len();
            let mut c: usize = 0;
            while c < n
                invariant
                    c <= n,
                    n == self.tables@[ti as int].columns@.len(),
                    cols@ =~= all_columns(self.tables@[ti as int]).take(c as int),
                decreases n - c,
            {
                cols.push(c);
                c += 1;
            }
            assert(cols@ =~= all_columns(self.tables@[ti as int]));
        } else {
            let ghost whole = name_list(input@, t1@, Seq::empty());
            let mut names: Vec<Vec<u8>> = Vec::new();
            let mut cur = t1;
            assert(names@.map_values(|v: Vec<u8>| v@) =~= Seq::<Seq<u8>>::empty());
            let nx;
            loop
                invariant
                    cur.end <= input@.len(),
                    cur@.kind == TokKind::Ident ==> cur@.start <= cur@.end,
                    names@.len() <= MAX_COLUMNS,
                    name_list(input@, cur@, names@.map_values(|v: Vec<u8>| v@)) == whole,
                decreases MAX_COLUMNS - names@.len(),
            {
                if cur.kind != TokKind::Ident {
                    return Err(lit_bytes("ERROR: expected column name\n"));
                }
                if names.len() >= MAX_COLUMNS {
                    return Err(lit_bytes("ERROR: too many columns\n"));
                }
                proof {
                    lemma_lex_bounds(input@, cur.end as int);
                }
                let ghost before = names@;
                names.push(short_copy(&input[cur.start..cur.end]));
                assert(names@.map_values(|v: Vec<u8>| v@) =~= before.map_values(|v: Vec<u8>| v@).push(
                    short_name(tok_text(input@, cur@)),
                ));
                let t = lex_at(input, cur.end);
                if t.kind == TokKind::Comma {
                    proof {
                        lemma_lex_bounds(input@, cur.end as int);
                        lemma_lex_bounds(input@, t.end as int);
                    }
                    cur = lex_at(input, t.end);
                } else {
                    nx = t;
                    break;
                }
            }
            let ghost snames = names@.map_values(|v: Vec<u8>| v@);
            assert(whole == Ok::<(Seq<Seq<u8>>, SqlToken), Seq<u8>>((snames, nx@)));
            if nx.kind != TokKind::Kw(Keyword::From) {
                return Err(lit_bytes("ERROR: expected FROM\n"));
            }
            proof {
                lemma_lex_bounds(input@, cur.end as int);
                lemma_lex_bounds(input@, nx.end as int);
            }
            let t3 = lex_at(input, nx.end);
            if t3.kind != TokKind::Ident {
                return Err(lit_bytes("ERROR: expected table name\n"));
            }
            ti = match self.find_table(&input[t3.start..t3.end]) {
                Some(i) => i,
                None => {
                    return Err(lit_bytes("ERROR: table not found\n"));
                },
            };
            let tbl = &self.tables[ti];
            let mut i: usize = 0;
            while i < names.len()
                invariant
                    i <= names@.len(),
                    snames == names@.map_values(|v: Vec<u8>| v@),
                    forall|k: int| 0 <= k < i ==> (#[trigger] tbl.column_index(snames[k])) is Some,
                    cols@ =~= resolved(*tbl, snames).take(i as int),
                    forall|k: int| 0 <= k < i ==> cols@[k] < tbl.columns@.len(),
                decreases names@.len() - i,
            {
                match tbl.find_column(names[i].as_slice()) {
                    Some(c) => {
                        cols.push(c);
                    },
                    None => {
                        assert(snames[i as int] == names@[i as int]@);
                        assert(!all_resolve(*tbl, snames));
                        return Err(lit_bytes("ERROR: column not found\n"));
                    },
                }
                i += 1;
            }
            assert(cols@ =~= resolved(*tbl, snames));
            proof {
                lemma_lex_bounds(input@, t3.end as int);
            }
            let t4 = lex_at(input, t3.end);
            cond = match read_cond(input, &t4, tbl) {
                Err(m) => {
                    return Err(m);
                },
                Ok(c) => c,
            };
        }
        Ok((ti, cols, cond))
    }

    /// The answer to a resolved `SELECT`: the header and the lines of the rows that pass the
    /// condition.
    #[verifier::loop_isolation(false)]
    fn render_select(tbl: &Table, cols: &Vec<usize>, cond: &Option<(usize, Value)>) -> (res: Vec<u8>)
        requires
            tbl.wf(),
            forall|k: int| 0 <= k < cols@.len() ==> cols@[k] < tbl.columns@.len(),
            *cond matches Some((c, _)) ==> c < tbl.columns@.len(),
        ensures
            res@ == sql_capped(header_line(*tbl, cols@) + rows_out(*tbl, cols@, cond_view(*cond), 0)),
    {
        let ghost sc = cond_view(*cond);
        let ghost scols = cols@;

        let mut header: Vec<Vec<u8>> = Vec::new();
        let mut i: usize = 0;
        while i < cols.len()
            invariant
                i <= cols@.len(),
                header@.map_values(|v: Vec<u8>| v@) =~= scols.map_values(|c: usize| tbl.columns@[c as int].name@).take(i as int),
            decreases cols@.len() - i,
        {
            let mut nm: Vec<u8> = Vec::new();
            extend(&mut nm, tbl.columns[cols[i]].name.as_slice());
            header.push(nm);
            i += 1;
        }
        let ghost hnames = scols.map_values(|c: usize| tbl.columns@[c as int].name@);
        assert(hnames.take(i as int) =~= hnames);
        assert(header@.map_values(|v: Vec<u8>| v@) =~= hnames);
        let mut out: Vec<u8> = Vec::new();
        push_tab_line(&mut out, &header);
        assert(out@ =~= header_line(*tbl, scols));
        let mut r: usize = 0;
        while r < MAX_ROWS
            invariant
                r <= MAX_ROWS,
                out@ + rows_out(*tbl, scols, sc, r as int) == header_line(*tbl, scols) + rows_out(*tbl, scols, sc, 0),
            decreases MAX_ROWS - r,
        {
            let ghost prev = out@;
            if tbl.used[r] && cond_holds(&tbl.rows[r], cond) {
                let row = &tbl.rows[r];
                let mut cells: Vec<Vec<u8>> = Vec::new();
                let mut k: usize = 0;
                while k < cols.len()
                    invariant
                        k <= cols@.len(),
                        row@.len() == tbl.columns@.len(),
                        cells@.map_values(|v: Vec<u8>| v@) =~= scols.map_values(
                            |c: usize| value_text(row_vals(*tbl, r as int)[c as int]),
                        ).take(k as int),
                    decreases cols@.len() - k,
                {
                    cells.push(value_bytes(&row[cols[k]]));
                    k += 1;
                }
                proof {
                    let texts = scols.map_values(|c: usize| value_text(row_vals(*tbl, r as int)[c as int]));
                    assert(texts.take(k as int) =~= texts);
                    assert(cells@.map_values(|v: Vec<u8>| v@) =~= texts);
                }
                push_tab_line(&mut out, &cells);
            }
            proof {
                let line = if passes(*tbl, r as int, sc) {
                    row_line(row_vals(*tbl, r as int), scols)
                } else {
                    Seq::empty()
                };
                assert(out@ =~= prev + line);
                assert(prev + rows_out(*tbl, scols, sc, r as int) =~= prev + (line + rows_out(*tbl, scols, sc, r + 1)));
                assert(prev + (line + rows_out(*tbl, scols, sc, r + 1)) =~= out@ + rows_out(*tbl, scols, sc, r + 1));
            }
            r += 1;
        }
        assert(out@ =~= header_line(*tbl, scols) + rows_out(*tbl, scols, sc, 0));
        if out.len() > MAX_SQL_RESPONSE {
            out.truncate(MAX_SQL_RESPONSE);
        }
        out
    }

    /// `SELECT * | col, ... FROM name [WHERE col = v]`, read from `pos` (just after
    /// `SELECT`).
    pub fn exec_select(&self, input: &[u8], pos: usize) -> (res: Vec<u8>)
        requires
            self.wf(),
            pos <= input@.len(),
        ensures
            res@ == select_reply(*self, input@, pos as int),
    {
        match self.plan_select(input, pos) {
            Err(m) => m,
            Ok((ti, cols, cond)) => {
                assert(self.tables@[ti as int].wf());
                Self::render_select(&self.tables[ti], &cols, &cond)
            },
        }
    }
}

/// The answer to a statement.
pub open spec fn sql_reply(db: Database, input: Seq<u8>) -> Seq<u8> {
    let t0 = lex(input, 0);
    let p = t0.end;
    if t0.kind == TokKind::Kw(Keyword::Create) {
        match create_plan(db, input, p) {
            Err(m) => m,
            Ok(_) => lit("OK: table created\n"),
        }
    } else if t0.kind == TokKind::Kw(Keyword::Insert) {
        match insert_plan(db, input, p) {
            Err(m) => m,
            Ok(_) => lit("OK: 1 row inserted\n"),
        }
    } else if t0.kind == TokKind::Kw(Keyword::Select) {
        select_reply(db, input, p)
    } else if t0.kind == TokKind::Kw(Keyword::Update) {
        match update_plan(db, input, p) {
            Err(m) => m,
            Ok((ti, _, _, cond)) => lit("OK: ") + dec_digits(pass_count(db.tables@[ti as int], cond, MAX_ROWS as int))
                + lit(" rows updated\n"),
        }
    } else if t0.kind == TokKind::Kw(Keyword::Delete) {
        match delete_plan(db, input, p) {
            Err(m) => m,
            Ok((ti, cond)) => lit("OK: ") + dec_digits(pass_count(db.tables@[ti as int], cond, MAX_ROWS as int))
                + lit(" rows deleted\n"),
        }
    } else if t0.kind == TokKind::Kw(Keyword::Drop) {
        match drop_plan(db, input, p) {
            Err(m) => m,
            Ok(_) => lit("OK: table dropped\n"),
        }
    } else {
        lit("ERROR: unknown command\n")
    }
}

/// What a statement does to the database; `res` is its answer.
pub open spec fn sql_post(old: Database, new: Database, input: Seq<u8>, res: Seq<u8>) -> bool {
    let t0 = lex(input, 0);
    let p = t0.end;
    if t0.kind == TokKind::Kw(Keyword::Create) {
        create_post(old, new, input, p, res)
    } else if t0.kind == TokKind::Kw(Keyword::Insert) {
        insert_post(old, new, input, p, res)
    } else if t0.kind == TokKind::Kw(Keyword::Select) {
        new == old && res == select_reply(old, input, p)
    } else if t0.kind == TokKind::Kw(Keyword::Update) {
        update_post(old, new, input, p, res)
    } else if t0.kind == TokKind::Kw(Keyword::Delete) {
        delete_post(old, new, input, p, res)
    } else if t0.kind == TokKind::Kw(Keyword::Drop) {
        drop_post(old, new, input, p, res)
    } else {
        new == old && res == lit("ERROR: unknown command\n")
    }
}

/// How many table slots are in use.
pub open spec fn table_count(db: Database, n: int) -> nat
    decreases n,
{
    if n <= 0 {
        0
    } else {
        table_count(db, n - 1) + if db.tables@[n - 1].occupied {
            1nat
        } else {
            0nat
        }
    }
}

/// How many of the first `n` row slots of a table hold rows.
pub open spec fn row_count(t: Table, n: int) -> nat
    decreases n,
{
    if n <= 0 {
        0
    } else {
        row_count(t, n - 1) + if t.used@[n - 1] {
            1nat
        } else {
            0nat
        }
    }
}

/// The longest answer to `/tables` or `/stats`; the rest is dropped.
pub const MAX_LISTING: usize = 512;

/// The first `MAX_LISTING` bytes of a listing.
pub open spec fn listing_capped(s: Seq<u8>) -> Seq<u8> {
    if s.len() <= MAX_LISTING {
        s
    } else {
        s.take(MAX_LISTING as int)
    }
}

/// One line per table in use from slot `i` on: its name.
pub open spec fn table_names_from(db: Database, i: int) -> Seq<u8>
    decreases MAX_TABLES - i,
{
    if i < 0 || i >= MAX_TABLES {
        Seq::empty()
    } else {
        (if db.tables@[i].occupied {
            db.tables@[i].name@ + lit("\n")
        } else {
            Seq::empty()
        }) + table_names_from(db, i + 1)
    }
}

/// One line per table in use from slot `i` on: `name: n rows`.
pub open spec fn table_stats_from(db: Database, i: int) -> Seq<u8>
    decreases MAX_TABLES - i,
{
    if i < 0 || i >= MAX_TABLES {
        Seq::empty()
    } else {
        (if db.tables@[i].occupied {
            db.tables@[i].name@ + lit(": ") + dec_digits(row_count(db.tables@[i], MAX_ROWS as int)) + lit(" rows\n")
        } else {
            Seq::empty()
        }) + table_stats_from(db, i + 1)
    }
}

/// The body of a `POST /sql` request: the bytes after the header, as many as
/// `Content-Length` says when it is given and no more arrived.
pub open spec fn sql_body(req: Seq<u8>, header_end: int) -> Seq<u8> {
    let cl = content_length_of(req, header_end);
    let avail = req.len() - header_end;
    let n = if cl > 0 && cl < avail {
        cl as int
    } else {
        avail
    };
    req.subrange(header_end, header_end + n)
}

/// The routes of the database's HTTP front end.
pub enum Route {
    BadRequest,
    Sql(Seq<u8>),
    Tables,
    Stats,
    NotFound,
}

/// Which route a request takes: `POST /sql` with its body, `GET /tables`, `GET /stats`,
/// anything else not found; a request without the end of its header is bad.
pub open spec fn route_of(req: Seq<u8>) -> Route {
    match header_end_of(req) {
        None => Route::BadRequest,
        Some(he) => {
            let (me, ps, pe) = request_line_parts(req, req.len() as int);
            let method = req.take(me);
            let path = req.subrange(ps, pe);
            if method == lit("POST") && pe <= req.len() && path == lit("/sql") {
                Route::Sql(sql_body(req, he))
            } else if method == lit("GET") && pe <= req.len() && path == lit("/tables") {
                Route::Tables
            } else if method == lit("GET") && pe <= req.len() && path == lit("/stats") {
                Route::Stats
            } else {
                Route::NotFound
            }
        },
    }
}

/// The whole HTTP answer to a request.
pub open spec fn http_reply(db: Database, req: Seq<u8>) -> Seq<u8> {
    match route_of(req) {
        Route::BadRequest => lit("HTTP/1.1 400 Bad Request\r\n\r\n"),
        Route::Sql(body) => {
            let r = sql_reply(db, body);
            response_head(lit("200 OK"), lit("text/plain"), r.len()) + r
        },
        Route::Tables => {
            let r = listing_capped(table_names_from(db, 0));
            response_head(lit("200 OK"), lit("text/plain"), r.len()) + r
        },
        Route::Stats => {
            let r = listing_capped(
                lit("tables: ") + dec_digits(table_count(db, MAX_TABLES as int)) + lit("\n") + table_stats_from(db, 0),
            );
            response_head(lit("200 OK"), lit("text/plain"), r.len()) + r
        },
        Route::NotFound => response_head(lit("404 Not Found"), lit("text/plain"), lit("not found\n").len()) + lit(
            "not found\n",
        ),
    }
}

proof fn lemma_count_bounds(db: Database, t: Table, n: int)
    requires
        0 <= n,
    ensures
        table_count(db, n) <= n,
        row_count(t, n) <= n,
    decreases n,
{
    if n > 0 {
        lemma_count_bounds(db, t, n - 1);
    }
}

impl Database {
    /// Runs one SQL statement and returns its answer.
    pub fn exec_sql(&mut self, input: &[u8]) -> (res: Vec<u8>)
        requires
            old(self).wf(),
        ensures
            final(self).wf(),
            sql_post(*old(self), *final(self), input@, res@),
            res@ == sql_reply(*old(self), input@),
    {
        proof {
            lemma_lex_bounds(input@, 0);
        }
        let t0 = lex_at(input, 0);
        let p = t0.end;
        match t0.kind {
            TokKind::Kw(Keyword::Create) => self.exec_create_table(input, p),
            TokKind::Kw(Keyword::Insert) => self.exec_insert(input, p),
            TokKind::Kw(Keyword::Select) => self.exec_select(input, p),
            TokKind::Kw(Keyword::Update) => self.exec_update(input, p),
            TokKind::Kw(Keyword::Delete) => self.exec_delete(input, p),
            TokKind::Kw(Keyword::Drop) => self.exec_drop_table(input, p),
            _ => lit_bytes("ERROR: unknown command\n"),
        }
    }

    /// One line per table in use: its name (at most `MAX_LISTING` bytes in all).
    pub fn list_tables(&self) -> (res: Vec<u8>)
        requires
            self.wf(),
        ensures
            res@ == listing_capped(table_names_from(*self, 0)),
    {
        let mut out: Vec<u8> = Vec::new();
        let mut i: usize = 0;
        while i < MAX_TABLES
            invariant
                self.wf(),
                i <= MAX_TABLES,
                out@ + table_names_from(*self, i as int) == table_names_from(*self, 0),
            decreases MAX_TABLES - i,
        {
            let ghost prev = out@;
            if self.tables[i].occupied {
                extend(&mut out, self.tables[i].name.as_slice());
                extend(&mut out, "\n".as_bytes());
            }
            proof {
                let line = if self.tables@[i as int].occupied {
                    self.tables@[i as int].name@ + lit("\n")
                } else {
                    Seq::empty()
                };
                assert(out@ =~= prev + line);
                assert(prev + (line + table_names_from(*self, i + 1)) =~= out@ + table_names_from(*self, i + 1));
            }
            i += 1;
        }
        assert(out@ =~= table_names_from(*self, 0));
        if out.len() > MAX_LISTING {
            out.truncate(MAX_LISTING);
        }
        out
    }

    /// The number of tables in use, then one line per table in use with its number of rows
    /// (at most `MAX_LISTING` bytes in all).
    pub fn stats(&self) -> (res: Vec<u8>)
        requires
            self.wf(),
        ensures
            res@ == listing_capped(
                lit("tables: ") + dec_digits(table_count(*self, MAX_TABLES as int)) + lit("\n") + table_stats_from(*self, 0),
            ),
    {
        let mut count: u32 = 0;
        let mut i: usize = 0;
        while i < MAX_TABLES
            invariant
                self.wf(),
                i <= MAX_TABLES,
                count == table_count(*self, i as int),
                count <= i,
            decreases MAX_TABLES - i,
        {
            if self.tables[i].occupied {
                count += 1;
            }
            i += 1;
        }
        let mut out = lit_bytes("tables: ");
        let d = format_u32(count);
        extend(&mut out, d.as_slice());
        extend(&mut out, "\n".as_bytes());
        let ghost head = out@;
        i = 0;
        while i < MAX_TABLES
            invariant
                self.wf(),
                i <= MAX_TABLES,
                out@ + table_stats_from(*self, i as int) == head + table_stats_from(*self, 0),
            decreases MAX_TABLES - i,
        {
            let ghost prev = out@;
            if self.tables[i].occupied {
                assert(self.tables@[i as int].wf());
                let mut rows: u32 = 0;
                let mut r: usize = 0;
                while r < MAX_ROWS
                    invariant
                        self.wf(),
                        i < MAX_TABLES,
                        self.tables@[i as int].wf(),
                        r <= MAX_ROWS,
                        rows == row_count(self.tables@[i as int], r as int),
                        rows <= r,
                    decreases MAX_ROWS - r,
                {
                    if self.tables[i].used[r] {
                        rows += 1;
                    }
                    r += 1;
                }
                extend(&mut out, self.tables[i].name.as_slice());
                extend(&mut out, ": ".as_bytes());
                let rd = format_u32(rows);
                extend(&mut out, rd.as_slice());
                extend(&mut out, " rows\n".as_bytes());
            }
            proof {
                let line = if self.tables@[i as int].occupied {
                    self.tables@[i as int].name@ + lit(": ") + dec_digits(
                        row_count(self.tables@[i as int], MAX_ROWS as int),
                    ) + lit(" rows\n")
                } else {
                    Seq::empty()
                };
                assert(out@ =~= prev + line);
                assert(prev + (line + table_stats_from(*self, i + 1)) =~= out@ + table_stats_from(*self, i + 1));
            }
            i += 1;
        }
        assert(out@ =~= head + table_stats_from(*self, 0));
        if out.len() > MAX_LISTING {
            out.truncate(MAX_LISTING);
        }
        out
    }

    /// Answers one complete HTTP request (header and body as received).
    pub fn handle_http(&mut self, req: &[u8]) -> (res: Vec<u8>)
        requires
            old(self).wf(),
            req@.len() < usize::MAX,
        ensures
            final(self).wf(),
            res@ == http_reply(*old(self), req@),
            match route_of(req@) {
                Route::Sql(body) => sql_post(*old(self), *final(self), body, sql_reply(*old(self), body)),
                _ => *final(self) == *old(self),
            },
    {
        match route(req) {
            HttpRoute::BadRequest => lit_bytes("HTTP/1.1 400 Bad Request\r\n\r\n"),
            HttpRoute::Sql(start, end) => {
                let r = self.exec_sql(&req[start..end]);
                build_response("200 OK".as_bytes(), "text/plain".as_bytes(), r.as_slice())
            },
            HttpRoute::Tables => {
                let r = self.list_tables();
                build_response("200 OK".as_bytes(), "text/plain".as_bytes(), r.as_slice())
            },
            HttpRoute::Stats => {
                let r = self.stats();
                build_response("200 OK".as_bytes(), "text/plain".as_bytes(), r.as_slice())
            },
            HttpRoute::NotFound => build_response(
                "404 Not Found".as_bytes(),
                "text/plain".as_bytes(),
                "not found\n".as_bytes(),
            ),
        }
    }
}

/// A route as the server follows it; `Sql` carries where the statement lies in the request.
pub enum HttpRoute {
    BadRequest,
    Sql(usize, usize),
    Tables,
    Stats,
    NotFound,
}

/// Picks the route of a request.
#[verifier::rlimit(80)]
pub fn route(req: &[u8]) -> (res: HttpRoute)
    requires
        req@.len() < usize::MAX,
    ensures
        match (res, route_of(req@)) {
            (HttpRoute::BadRequest, Route::BadRequest) => true,
            (HttpRoute::Sql(s, e), Route::Sql(body)) => s <= e <= req@.len() && req@.subrange(s as int, e as int) == body,
            (HttpRoute::Tables, Route::Tables) => true,
            (HttpRoute::Stats, Route::Stats) => true,
            (HttpRoute::NotFound, Route::NotFound) => true,
            _ => false,
        },
{
    let len = req.len();
    let he = match find_header_end(req, len) {
        Some(e) => e,
        None => {
            proof {
                lemma_blank_line_from(req@, 0, 0);
            }
            return HttpRoute::BadRequest;
        },
    };
    proof {
        lemma_blank_line_from(req@, 0, he - 4);
    }
    assert(header_end_of(req@) == Some(he as int));
    let (me, ps, pe) = parse_request_line(req, len);
    if method_is(req, me, "POST".as_bytes()) && pe <= len && path_eq(req, ps, pe, "/sql".as_bytes()) {
        let cl = parse_content_length(req, he);
        let avail = len - he;
        let n = if cl > 0 && cl < avail {
            cl
        } else {
            avail
        };
        return HttpRoute::Sql(he, he + n);
    }
    if method_is(req, me, "GET".as_bytes()) && pe <= len && path_eq(req, ps, pe, "/tables".as_bytes()) {
        return HttpRoute::Tables;
    }
    if method_is(req, me, "GET".as_bytes()) && pe <= len && path_eq(req, ps, pe, "/stats".as_bytes()) {
        return HttpRoute::Stats;
    }
    HttpRoute::NotFound
}

} // verus!
