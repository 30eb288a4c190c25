//! The SQL subset: SELECT with an optional equality WHERE, CREATE TABLE and
//! CREATE INDEX. Keywords are matched without regard to ASCII case, and
//! whitespace may stand between any two tokens.
use vstd::prelude::*;

use crate::error::DbError;
use crate::text::push_char;

verus! {

/// A parsed statement.
#[derive(Debug, PartialEq)]
pub enum Statement {
    Select(SelectStatement),
    CreateTable(CreateTableStatement),
    CreateIndex(CreateIndexStatement),
}

/// `CREATE TABLE name (columns...)`; only the column names are kept.
#[derive(Debug, PartialEq)]
pub struct CreateTableStatement {
    pub name: String,
    pub columns: Vec<String>,
}

/// `CREATE INDEX name ON table_name (columns...)`.
#[derive(Debug, PartialEq)]
pub struct CreateIndexStatement {
    pub name: String,
    pub table_name: String,
    pub columns: Vec<String>,
}

/// `SELECT select FROM from [WHERE column = 'value']`.
#[derive(Debug, PartialEq, Clone)]
pub struct SelectStatement {
    pub select: Vec<String>,
    pub from: String,
    pub where_clause: Option<WhereClause>,
}

/// `WHERE column = 'value'`.
#[derive(Debug, PartialEq, Clone)]
pub struct WhereClause {
    pub column: String,
    pub value: String,
}

/// What a [`Statement`] holds, with names as character sequences.
pub enum StatementView {
    Select(Seq<Seq<char>>, Seq<char>, Option<(Seq<char>, Seq<char>)>),
    CreateTable(Seq<char>, Seq<Seq<char>>),
    CreateIndex(Seq<char>, Seq<char>, Seq<Seq<char>>),
}

/// The characters of a vector of strings.
pub open spec fn strings_view(v: Seq<String>) -> Seq<Seq<char>> {
    v.map_values(|s: String| s@)
}

impl View for Statement {
    type V = StatementView;

    open spec fn view(&self) -> StatementView {
        match self {
            Statement::Select(s) => StatementView::Select(
                strings_view(s.select@),
                s.from@,
                match s.where_clause {
                    Some(w) => Some((w.column@, w.value@)),
                    None => None,
                },
            ),
            Statement::CreateTable(c) => StatementView::CreateTable(
                c.name@,
                strings_view(c.columns@),
            ),
            Statement::CreateIndex(c) => StatementView::CreateIndex(
                c.name@,
                c.table_name@,
                strings_view(c.columns@),
            ),
        }
    }
}

pub open spec fn is_ws(ch: char) -> bool {
    ch == ' ' || ch == '\t' || ch == '\n' || ch == '\r'
}

pub open spec fn is_letter(ch: char) -> bool {
    ('a' <= ch && ch <= 'z') || ('A' <= ch && ch <= 'Z')
}

pub open spec fn is_word_char(ch: char) -> bool {
    is_letter(ch) || ('0' <= ch && ch <= '9') || ch == '_'
}

/// The ASCII upper-case form of a lower-case letter; any other character
/// stays as it is.
pub open spec fn upper(ch: char) -> char {
    if ch == 'a' {
        'A'
    } else if ch == 'b' {
        'B'
    } else if ch == 'c' {
        'C'
    } else if ch == 'd' {
        'D'
    } else if ch == 'e' {
        'E'
    } else if ch == 'f' {
        'F'
    } else if ch == 'g' {
        'G'
    } else if ch == 'h' {
        'H'
    } else if ch == 'i' {
        'I'
    } else if ch == 'j' {
        'J'
    } else if ch == 'k' {
        'K'
    } else if ch == 'l' {
        'L'
    } else if ch == 'm' {
        'M'
    } else if ch == 'n' {
        'N'
    } else if ch == 'o' {
        'O'
    } else if ch == 'p' {
        'P'
    } else if ch == 'q' {
        'Q'
    } else if ch == 'r' {
        'R'
    } else if ch == 's' {
        'S'
    } else if ch == 't' {
        'T'
    } else if ch == 'u' {
        'U'
    } else if ch == 'v' {
        'V'
    } else if ch == 'w' {
        'W'
    } else if ch == 'x' {
        'X'
    } else if ch == 'y' {
        'Y'
    } else if ch == 'z' {
        'Z'
    } else {
        ch
    }
}

/// The first position from `i` that does not hold whitespace.
pub open spec fn skip_ws(c: Seq<char>, i: nat) -> nat
    decreases c.len() - i,
{
    if i < c.len() && is_ws(c[i as int]) {
        skip_ws(c, i + 1)
    } else {
        i
    }
}

/// The first position from `i` that does not hold a letter, digit or `_`;
/// with `spaces`, a space counts too.
pub open spec fn word_end(c: Seq<char>, i: nat, spaces: bool) -> nat
    decreases c.len() - i,
{
    if i < c.len() && (is_word_char(c[i as int]) || (spaces && c[i as int] == ' ')) {
        word_end(c, i + 1, spaces)
    } else {
        i
    }
}

/// Whether the lower-case keyword `kw` stands at `i`, in any ASCII case.
pub open spec fn keyword_at(c: Seq<char>, i: nat, kw: Seq<char>) -> bool {
    &&& i + kw.len() <= c.len()
    &&& forall|k: int|
        0 <= k < kw.len() ==> #[trigger] c[i + k] == kw[k] || c[i + k] == upper(kw[k])
}

/// An identifier at `i`: a letter, then letters, digits and `_`, with an
/// optional double quote before and after. Gives the name and the position
/// after it.
pub open spec fn ident_at(c: Seq<char>, i: nat) -> Option<(Seq<char>, nat)> {
    let j = if i < c.len() && c[i as int] == '"' {
        i + 1
    } else {
        i
    };
    if j < c.len() && is_letter(c[j as int]) {
        let e = word_end(c, j + 1, false);
        let after = if e < c.len() && c[e as int] == '"' {
            e + 1
        } else {
            e
        };
        Some((c.subrange(j as int, e as int), after))
    } else {
        None
    }
}

/// A double-quoted identifier at `i`, which may hold spaces.
pub open spec fn quoted_at(c: Seq<char>, i: nat) -> Option<(Seq<char>, nat)> {
    if i + 1 < c.len() && c[i as int] == '"' && is_letter(c[i + 1int]) {
        let e = word_end(c, i + 2, true);
        if e < c.len() && c[e as int] == '"' {
            Some((c.subrange(i + 1int, e as int), e + 1))
        } else {
            None
        }
    } else {
        None
    }
}

/// The end of the type and constraint words after a column name: the
/// identifiers that follow `i`, each after optional whitespace.
pub open spec fn words_end(c: Seq<char>, i: nat) -> nat
    decreases c.len() - i,
{
    let j = skip_ws(c, i);
    match ident_at(c, j) {
        Some((_, k)) => if i < k <= c.len() {
            words_end(c, k)
        } else {
            i
        },
        None => i,
    }
}

/// A column definition at `i`: its name, quoted or not, then at least one
/// word of type or constraint. Gives the name.
pub open spec fn column_at(c: Seq<char>, i: nat) -> Option<(Seq<char>, nat)> {
    let name = match quoted_at(c, i) {
        Some(q) => Some(q),
        None => ident_at(c, i),
    };
    match name {
        None => None,
        Some((n, e)) => match ident_at(c, skip_ws(c, e)) {
            None => None,
            Some((_, k)) => Some((n, words_end(c, k))),
        },
    }
}

/// The characters `count(*)`.
pub open spec fn count_star() -> Seq<char> {
    seq!['c', 'o', 'u', 'n', 't', '(', '*', ')']
}

/// The characters `COUNT(*)`.
pub open spec fn count_star_upper() -> Seq<char> {
    seq!['C', 'O', 'U', 'N', 'T', '(', '*', ')']
}

/// An item of a select list: `COUNT(*)`, in any case, or an identifier.
pub open spec fn select_item_at(c: Seq<char>, i: nat) -> Option<(Seq<char>, nat)> {
    if keyword_at(c, i, count_star()) {
        Some((count_star_upper(), i + 8))
    } else {
        ident_at(c, i)
    }
}

/// The kinds of list items.
pub enum ItemKind {
    SelectItem,
    Column,
    Ident,
}

pub open spec fn item_at(kind: ItemKind, c: Seq<char>, i: nat) -> Option<(Seq<char>, nat)> {
    match kind {
        ItemKind::SelectItem => select_item_at(c, i),
        ItemKind::Column => column_at(c, i),
        ItemKind::Ident => ident_at(c, i),
    }
}

/// The rest of a comma-separated list after an item that ended at `i`:
/// each further item follows a comma, with whitespace allowed around it.
pub open spec fn list_rest(kind: ItemKind, c: Seq<char>, i: nat) -> Option<(Seq<Seq<char>>, nat)>
    decreases c.len() - i,
{
    let j = skip_ws(c, i);
    if j < c.len() && c[j as int] == ',' {
        match item_at(kind, c, skip_ws(c, j + 1)) {
            None => None,
            Some((x, e)) => if i < e <= c.len() {
                match list_rest(kind, c, e) {
                    None => None,
                    Some((xs, f)) => Some((seq![x] + xs, f)),
                }
            } else {
                None
            },
        }
    } else {
        Some((Seq::empty(), i))
    }
}

/// A comma-separated list of at least one item, starting at `i`.
pub open spec fn list_at(kind: ItemKind, c: Seq<char>, i: nat) -> Option<(Seq<Seq<char>>, nat)> {
    match item_at(kind, c, i) {
        None => None,
        Some((x, e)) => if i < e <= c.len() {
            match list_rest(kind, c, e) {
                None => None,
                Some((xs, f)) => Some((seq![x] + xs, f)),
            }
        } else {
            None
        },
    }
}

/// `kw` at `i` after optional whitespace; gives the position after it.
#[verifier::opaque]
pub open spec fn token(c: Seq<char>, i: nat, kw: Seq<char>) -> Option<nat> {
    let j = skip_ws(c, i);
    if keyword_at(c, j, kw) {
        Some(j + kw.len())
    } else {
        None
    }
}

/// An identifier after optional whitespace.
#[verifier::opaque]
pub open spec fn ident_token(c: Seq<char>, i: nat) -> Option<(Seq<char>, nat)> {
    ident_at(c, skip_ws(c, i))
}

/// A list after optional whitespace.
#[verifier::opaque]
pub open spec fn list_token(kind: ItemKind, c: Seq<char>, i: nat) -> Option<(Seq<Seq<char>>, nat)> {
    list_at(kind, c, skip_ws(c, i))
}

/// The first position from `i` that holds a single quote, or the end.
pub open spec fn quote_end(c: Seq<char>, i: nat) -> nat
    decreases c.len() - i,
{
    if i < c.len() && c[i as int] != '\'' {
        quote_end(c, i + 1)
    } else {
        i
    }
}

pub open spec fn kw_select() -> Seq<char> {
    seq!['s', 'e', 'l', 'e', 'c', 't']
}

pub open spec fn kw_from() -> Seq<char> {
    seq!['f', 'r', 'o', 'm']
}

pub open spec fn kw_where() -> Seq<char> {
    seq!['w', 'h', 'e', 'r', 'e']
}

pub open spec fn kw_create() -> Seq<char> {
    seq!['c', 'r', 'e', 'a', 't', 'e']
}

pub open spec fn kw_table() -> Seq<char> {
    seq!['t', 'a', 'b', 'l', 'e']
}

pub open spec fn kw_index() -> Seq<char> {
    seq!['i', 'n', 'd', 'e', 'x']
}

pub open spec fn kw_on() -> Seq<char> {
    seq!['o', 'n']
}

/// `WHERE column = 'value'` after optional whitespace.
#[verifier::opaque]
pub open spec fn where_at(c: Seq<char>, i: nat) -> Option<((Seq<char>, Seq<char>), nat)> {
    match token(c, i, kw_where()) {
        None => None,
        Some(a) => match ident_token(c, a) {
            None => None,
            Some((col, b)) => match token(c, b, seq!['=']) {
                None => None,
                Some(d) => match token(c, d, seq!['\'']) {
                    None => None,
                    Some(e) => {
                        let q = quote_end(c, e);
                        if q < c.len() {
                            Some(((col, c.subrange(e as int, q as int)), q + 1))
                        } else {
                            None
                        }
                    },
                },
            },
        },
    }
}

/// A SELECT statement at `i`.
pub open spec fn select_at(c: Seq<char>, i: nat) -> Option<(StatementView, nat)> {
    match token(c, i, kw_select()) {
        None => None,
        Some(a) => match list_token(ItemKind::SelectItem, c, a) {
            None => None,
            Some((items, b)) => match token(c, b, kw_from()) {
                None => None,
                Some(d) => match ident_token(c, d) {
                    None => None,
                    Some((from, e)) => match where_at(c, e) {
                        Some((w, f)) => Some((StatementView::Select(items, from, Some(w)), f)),
                        None => Some((StatementView::Select(items, from, None), e)),
                    },
                },
            },
        },
    }
}

/// A CREATE TABLE statement at `i`.
pub open spec fn create_table_at(c: Seq<char>, i: nat) -> Option<(StatementView, nat)> {
    match token(c, i, kw_create()) {
        None => None,
        Some(a) => match token(c, a, kw_table()) {
            None => None,
            Some(b) => match ident_token(c, b) {
                None => None,
                Some((name, d)) => match token(c, d, seq!['(']) {
                    None => None,
                    Some(e) => match list_token(ItemKind::Column, c, e) {
                        None => None,
                        Some((cols, f)) => match token(c, f, seq![')']) {
                            None => None,
                            Some(g) => Some((StatementView::CreateTable(name, cols), g)),
                        },
                    },
                },
            },
        },
    }
}

/// A CREATE INDEX statement at `i`.
pub open spec fn create_index_at(c: Seq<char>, i: nat) -> Option<(StatementView, nat)> {
    match token(c, i, kw_create()) {
        None => None,
        Some(a) => match token(c, a, kw_index()) {
            None => None,
            Some(b) => match ident_token(c, b) {
                None => None,
                Some((name, d)) => match token(c, d, kw_on()) {
                    None => None,
                    Some(e) => match ident_token(c, e) {
                        None => None,
                        Some((table, f)) => match token(c, f, seq!['(']) {
                            None => None,
                            Some(g) => match list_token(ItemKind::Ident, c, g) {
                                None => None,
                                Some((cols, h)) => match token(c, h, seq![')']) {
                                    None => None,
                                    Some(k) => Some(
                                        (StatementView::CreateIndex(name, table, cols), k),
                                    ),
                                },
                            },
                        },
                    },
                },
            },
        },
    }
}

/// The statement that `c` holds in full, trailing whitespace allowed: the
/// first of SELECT, CREATE TABLE and CREATE INDEX that matches.
pub open spec fn parse_statement(c: Seq<char>) -> Option<StatementView> {
    let s = match select_at(c, 0) {
        Some(r) => Some(r),
        None => match create_table_at(c, 0) {
            Some(r) => Some(r),
            None => create_index_at(c, 0),
        },
    };
    match s {
        Some((v, e)) => if skip_ws(c, e) == c.len() {
            Some(v)
        } else {
            None
        },
        None => None,
    }
}

/// The characters of `s`.
pub fn chars_of(s: &str) -> (r: Vec<char>)
    ensures
        r@ == s@,
{
    let n = s.unicode_len();
    let mut r: Vec<char> = Vec::new();
    let mut i: usize = 0;
    while i < n
        invariant
            n == s@.len(),
            i <= n,
            r@ == s@.subrange(0, i as int),
        decreases n - i,
    {
        r.push(s.get_char(i));
        i = i + 1;
        proof {
            assert(r@ == s@.subrange(0, i as int));
        }
    }
    proof {
        assert(r@ == s@);
    }
    r
}

/// The characters `c[a..b]` as a string.
fn substring(c: &Vec<char>, a: usize, b: usize) -> (r: String)
    requires
        a <= b <= c@.len(),
    ensures
        r@ == c@.subrange(a as int, b as int),
{
    let mut r = String::new();
    let mut i = a;
    while i < b
        invariant
            a <= i <= b,
            b <= c@.len(),
            r@ == c@.subrange(a as int, i as int),
        decreases b - i,
    {
        push_char(&mut r, c[i]);
        i = i + 1;
        proof {
            assert(r@ == c@.subrange(a as int, i as int));
        }
    }
    r
}

fn is_ws_char(ch: char) -> (r: bool)
    ensures
        r == is_ws(ch),
{
    ch == ' ' || ch == '\t' || ch == '\n' || ch == '\r'
}

fn is_letter_char(ch: char) -> (r: bool)
    ensures
        r == is_letter(ch),
{
    ('a' <= ch && ch <= 'z') || ('A' <= ch && ch <= 'Z')
}

fn is_word(ch: char) -> (r: bool)
    ensures
        r == is_word_char(ch),
{
    is_letter_char(ch) || ('0' <= ch && ch <= '9') || ch == '_'
}

/// Skips whitespace from `i`.
fn skip_whitespace(c: &Vec<char>, i: usize) -> (r: usize)
    requires
        i <= c@.len(),
    ensures
        r == skip_ws(c@, i as nat),
        i <= r <= c@.len(),
{
    let mut j = i;
    while j < c.len() && is_ws_char(c[j])
        invariant
            i <= j <= c@.len(),
            skip_ws(c@, i as nat) == skip_ws(c@, j as nat),
        decreases c@.len() - j,
    {
        j = j + 1;
    }
    j
}

/// The end of the word that starts at `i`.
fn find_word_end(c: &Vec<char>, i: usize, spaces: bool) -> (r: usize)
    requires
        i <= c@.len(),
    ensures
        r == word_end(c@, i as nat, spaces),
        i <= r <= c@.len(),
{
    let mut j = i;
    while j < c.len() && (is_word(c[j]) || (spaces && c[j] == ' '))
        invariant
            i <= j <= c@.len(),
            word_end(c@, i as nat, spaces) == word_end(c@, j as nat, spaces),
        decreases c@.len() - j,
    {
        j = j + 1;
    }
    j
}

fn to_upper(ch: char) -> (r: char)
    ensures
        r == upper(ch),
{
    if ch == 'a' {
        'A'
    } else if ch == 'b' {
        'B'
    } else if ch == 'c' {
        'C'
    } else if ch == 'd' {
        'D'
    } else if ch == 'e' {
        'E'
    } else if ch == 'f' {
        'F'
    } else if ch == 'g' {
        'G'
    } else if ch == 'h' {
        'H'
    } else if ch == 'i' {
        'I'
    } else if ch == 'j' {
        'J'
    } else if ch == 'k' {
        'K'
    } else if ch == 'l' {
        'L'
    } else if ch == 'm' {
        'M'
    } else if ch == 'n' {
        'N'
    } else if ch == 'o' {
        'O'
    } else if ch == 'p' {
        'P'
    } else if ch == 'q' {
        'Q'
    } else if ch == 'r' {
        'R'
    } else if ch == 's' {
        'S'
    } else if ch == 't' {
        'T'
    } else if ch == 'u' {
        'U'
    } else if ch == 'v' {
        'V'
    } else if ch == 'w' {
        'W'
    } else if ch == 'x' {
        'X'
    } else if ch == 'y' {
        'Y'
    } else if ch == 'z' {
        'Z'
    } else {
        ch
    }
}

/// Whether the lower-case keyword `kw` stands at `i`.
fn match_keyword(c: &Vec<char>, i: usize, kw: &[char]) -> (r: bool)
    requires
        i <= c@.len(),
    ensures
        r == keyword_at(c@, i as nat, kw@),
{
    let len = c.len();
    if kw.len() > len - i {
        return false;
    }
    let mut k: usize = 0;
    while k < kw.len()
        invariant
            len == c@.len(),
            k <= kw@.len(),
            i + kw@.len() <= c@.len(),
            forall|m: int| 0 <= m < k ==> #[trigger] c@[i + m] == kw@[m] || c@[i + m] == upper(kw@[m]),
        decreases kw@.len() - k,
    {
        let ch = c[i + k];
        let want = kw[k];
        if !(ch == want || ch == to_upper(want)) {
            return false;
        }
        k = k + 1;
    }
    true
}

/// An identifier at `i`.
fn parse_ident(c: &Vec<char>, i: usize) -> (r: Option<(String, usize)>)
    requires
        i <= c@.len(),
    ensures
        match ident_at(c@, i as nat) {
            Some((n, e)) => r matches Some((s, e2)) && s@ == n && e2 == e,
            None => r is None,
        },
        r matches Some((s, e)) ==> i < e <= c@.len(),
{
    let j = if i < c.len() && c[i] == '"' {
        i + 1
    } else {
        i
    };
    if j < c.len() && is_letter_char(c[j]) {
        let e = find_word_end(c, j + 1, false);
        let after = if e < c.len() && c[e] == '"' {
            e + 1
        } else {
            e
        };
        Some((substring(c, j, e), after))
    } else {
        None
    }
}

/// A double-quoted identifier at `i`.
fn parse_quoted(c: &Vec<char>, i: usize) -> (r: Option<(String, usize)>)
    requires
        i <= c@.len(),
    ensures
        match quoted_at(c@, i as nat) {
            Some((n, e)) => r matches Some((s, e2)) && s@ == n && e2 == e,
            None => r is None,
        },
        r matches Some((s, e)) ==> i < e <= c@.len(),
{
    let len = c.len();
    if i < len && i + 1 < len && c[i] == '"' && is_letter_char(c[i + 1]) {
        let e = find_word_end(c, i + 2, true);
        if e < c.len() && c[e] == '"' {
            Some((substring(c, i + 1, e), e + 1))
        } else {
            None
        }
    } else {
        None
    }
}

/// The end of the words that follow a column name.
fn find_words_end(c: &Vec<char>, i: usize) -> (r: usize)
    requires
        i <= c@.len(),
    ensures
        r == words_end(c@, i as nat),
        i <= r <= c@.len(),
{
    let mut p = i;
    loop
        invariant
            i <= p <= c@.len(),
            words_end(c@, i as nat) == words_end(c@, p as nat),
        decreases c@.len() - p,
    {
        let j = skip_whitespace(c, p);
        match parse_ident(c, j) {
            Some((_, k)) => {
                p = k;
            },
            None => {
                return p;
            },
        }
    }
}

/// A column definition at `i`.
fn parse_column(c: &Vec<char>, i: usize) -> (r: Option<(String, usize)>)
    requires
        i <= c@.len(),
    ensures
        match column_at(c@, i as nat) {
            Some((n, e)) => r matches Some((s, e2)) && s@ == n && e2 == e,
            None => r is None,
        },
        r matches Some((s, e)) ==> i < e <= c@.len(),
{
    let name = match parse_quoted(c, i) {
        Some(q) => Some(q),
        None => parse_ident(c, i),
    };
    match name {
        None => None,
        Some((n, e)) => {
            let j = skip_whitespace(c, e);
            match parse_ident(c, j) {
                None => None,
                Some((_, k)) => Some((n, find_words_end(c, k))),
            }
        },
    }
}

/// An item of a select list at `i`.
fn parse_select_item(c: &Vec<char>, i: usize) -> (r: Option<(String, usize)>)
    requires
        i <= c@.len(),
    ensures
        match select_item_at(c@, i as nat) {
            Some((n, e)) => r matches Some((s, e2)) && s@ == n && e2 == e,
            None => r is None,
        },
        r matches Some((s, e)) ==> i < e <= c@.len(),
{
    let kw = ['c', 'o', 'u', 'n', 't', '(', '*', ')'];
    proof {
        assert(kw@ == count_star());
    }
    let len = c.len();
    if 8 <= len - i && match_keyword(c, i, kw.as_slice()) {
        let mut s = String::new();
        push_char(&mut s, 'C');
        push_char(&mut s, 'O');
        push_char(&mut s, 'U');
        push_char(&mut s, 'N');
        push_char(&mut s, 'T');
        push_char(&mut s, '(');
        push_char(&mut s, '*');
        push_char(&mut s, ')');
        proof {
            assert(s@ == count_star_upper());
        }
        Some((s, i + 8))
    } else {
        parse_ident(c, i)
    }
}

fn parse_item(kind: &ItemKind, c: &Vec<char>, i: usize) -> (r: Option<(String, usize)>)
    requires
        i <= c@.len(),
    ensures
        match item_at(*kind, c@, i as nat) {
            Some((n, e)) => r matches Some((s, e2)) && s@ == n && e2 == e,
            None => r is None,
        },
        r matches Some((s, e)) ==> i < e <= c@.len(),
{
    match kind {
        ItemKind::SelectItem => parse_select_item(c, i),
        ItemKind::Column => parse_column(c, i),
        ItemKind::Ident => parse_ident(c, i),
    }
}

/// A comma-separated list at `i`.
fn parse_list(kind: &ItemKind, c: &Vec<char>, i: usize) -> (r: Option<(Vec<String>, usize)>)
    requires
        i <= c@.len(),
    ensures
        match list_at(*kind, c@, i as nat) {
            Some((xs, e)) => r matches Some((v, e2)) && strings_view(v@) == xs && e2 == e,
            None => r is None,
        },
        r matches Some((v, e)) ==> i < e <= c@.len(),
{
    let (first, mut p) = match parse_item(kind, c, i) {
        None => {
            return None;
        },
        Some(x) => x,
    };
    let ghost x0 = first@;
    let mut items: Vec<String> = Vec::new();
    items.push(first);
    proof {
        assert(strings_view(items@) == seq![x0]);
    }
    loop
        invariant
            i < p <= c@.len(),
            items@.len() >= 1,
            list_at(*kind, c@, i as nat) == match list_rest(*kind, c@, p as nat) {
                None => None,
                Some((xs, f)) => Some((strings_view(items@) + xs, f)),
            },
        decreases c@.len() - p,
    {
        let j = skip_whitespace(c, p);
        if !(j < c.len() && c[j] == ',') {
            proof {
                assert(strings_view(items@) + Seq::<Seq<char>>::empty() == strings_view(items@));
            }
            return Some((items, p));
        }
        let k = skip_whitespace(c, j + 1);
        match parse_item(kind, c, k) {
            None => {
                return None;
            },
            Some((x, e)) => {
                let ghost before = items@;
                let ghost xv = x@;
                items.push(x);
                proof {
                    assert(strings_view(items@) == strings_view(before) + seq![xv]);
                    match list_rest(*kind, c@, e as nat) {
                        None => {},
                        Some((xs, f)) => {
                            assert(strings_view(before) + (seq![xv] + xs) == strings_view(
                                items@,
                            ) + xs);
                        },
                    }
                }
                p = e;
            },
        }
    }
}

/// The keyword `kw` after optional whitespace.
fn parse_token(c: &Vec<char>, i: usize, kw: &[char]) -> (r: Option<usize>)
    requires
        i <= c@.len(),
        kw@.len() <= 8,
    ensures
        match token(c@, i as nat, kw@) {
            Some(e) => r matches Some(a) && a as nat == e,
            None => r is None,
        },
        r matches Some(e) ==> i <= e <= c@.len(),
{
    reveal(token);
    let j = skip_whitespace(c, i);
    let len = c.len();
    if kw.len() <= len - j && match_keyword(c, j, kw) {
        Some(j + kw.len())
    } else {
        None
    }
}

/// An identifier after optional whitespace.
fn parse_ident_token(c: &Vec<char>, i: usize) -> (r: Option<(String, usize)>)
    requires
        i <= c@.len(),
    ensures
        match ident_token(c@, i as nat) {
            Some((n, e)) => r matches Some((s, e2)) && s@ == n && e2 == e,
            None => r is None,
        },
        r matches Some((s, e)) ==> i < e <= c@.len(),
{
    reveal(ident_token);
    let j = skip_whitespace(c, i);
    parse_ident(c, j)
}

/// A list after optional whitespace.
fn parse_list_token(kind: &ItemKind, c: &Vec<char>, i: usize) -> (r: Option<(Vec<String>, usize)>)
    requires
        i <= c@.len(),
    ensures
        match list_token(*kind, c@, i as nat) {
            Some((xs, e)) => r matches Some((v, e2)) && strings_view(v@) == xs && e2 == e,
            None => r is None,
        },
        r matches Some((v, e)) ==> i < e <= c@.len(),
{
    reveal(list_token);
    let j = skip_whitespace(c, i);
    parse_list(kind, c, j)
}

/// The characters after the opening quote of a literal, up to the closing one.
fn find_quote_end(c: &Vec<char>, i: usize) -> (r: usize)
    requires
        i <= c@.len(),
    ensures
        r == quote_end(c@, i as nat),
        i <= r <= c@.len(),
{
    let mut j = i;
    while j < c.len() && c[j] != '\''
        invariant
            i <= j <= c@.len(),
            quote_end(c@, i as nat) == quote_end(c@, j as nat),
        decreases c@.len() - j,
    {
        j = j + 1;
    }
    j
}

fn parse_where(c: &Vec<char>, i: usize) -> (r: Option<(WhereClause, usize)>)
    requires
        i <= c@.len(),
    ensures
        match where_at(c@, i as nat) {
            Some(((col, val), e)) => r matches Some((w, e2)) && w.column@ == col && w.value@ == val
                && e2 == e,
            None => r is None,
        },
        r matches Some((w, e)) ==> e <= c@.len(),
{
    reveal(where_at);
    let kw = ['w', 'h', 'e', 'r', 'e'];
    let eq = ['='];
    let quote = ['\''];
    proof {
        assert(kw@ == kw_where());
        assert(eq@ == seq!['=']);
        assert(quote@ == seq!['\'']);
    }
    let a = match parse_token(c, i, kw.as_slice()) {
        None => {
            return None;
        },
        Some(a) => a,
    };
    let (column, b) = match parse_ident_token(c, a) {
        None => {
            return None;
        },
        Some(x) => x,
    };
    let d = match parse_token(c, b, eq.as_slice()) {
        None => {
            return None;
        },
        Some(d) => d,
    };
    let e = match parse_token(c, d, quote.as_slice()) {
        None => {
            return None;
        },
        Some(e) => e,
    };
    let q = find_quote_end(c, e);
    if q < c.len() {
        let value = substring(c, e, q);
        Some((WhereClause { column, value }, q + 1))
    } else {
        None
    }
}

fn parse_select(c: &Vec<char>, i: usize) -> (r: Option<(Statement, usize)>)
    requires
        i <= c@.len(),
    ensures
        match select_at(c@, i as nat) {
            Some((v, e)) => r matches Some((s, e2)) && s@ == v && e2 == e,
            None => r is None,
        },
        r matches Some((s, e)) ==> e <= c@.len(),
{
    let kw = ['s', 'e', 'l', 'e', 'c', 't'];
    let kw_f = ['f', 'r', 'o', 'm'];
    proof {
        assert(kw@ == kw_select());
        assert(kw_f@ == kw_from());
    }
    let a = match parse_token(c, i, kw.as_slice()) {
        None => {
            return None;
        },
        Some(a) => a,
    };
    let (select, b) = match parse_list_token(&ItemKind::SelectItem, c, a) {
        None => {
            return None;
        },
        Some(x) => x,
    };
    let d = match parse_token(c, b, kw_f.as_slice()) {
        None => {
            return None;
        },
        Some(d) => d,
    };
    let (from, e) = match parse_ident_token(c, d) {
        None => {
            return None;
        },
        Some(x) => x,
    };
    match parse_where(c, e) {
        Some((w, f)) => Some(
            (Statement::Select(SelectStatement { select, from, where_clause: Some(w) }), f),
        ),
        None => Some((Statement::Select(SelectStatement { select, from, where_clause: None }), e)),
    }
}

fn parse_create_table(c: &Vec<char>, i: usize) -> (r: Option<(Statement, usize)>)
    requires
        i <= c@.len(),
    ensures
        match create_table_at(c@, i as nat) {
            Some((v, e)) => r matches Some((s, e2)) && s@ == v && e2 == e,
            None => r is None,
        },
        r matches Some((s, e)) ==> e <= c@.len(),
{
    let kw_c = ['c', 'r', 'e', 'a', 't', 'e'];
    let kw_t = ['t', 'a', 'b', 'l', 'e'];
    let open = ['('];
    let close = [')'];
    proof {
        assert(kw_c@ == kw_create());
        assert(kw_t@ == kw_table());
        assert(open@ == seq!['(']);
        assert(close@ == seq![')']);
    }
    let a = match parse_token(c, i, kw_c.as_slice()) {
        None => {
            return None;
        },
        Some(a) => a,
    };
    let b = match parse_token(c, a, kw_t.as_slice()) {
        None => {
            return None;
        },
        Some(b) => b,
    };
    let (name, d) = match parse_ident_token(c, b) {
        None => {
            return None;
        },
        Some(x) => x,
    };
    let e = match parse_token(c, d, open.as_slice()) {
        None => {
            return None;
        },
        Some(e) => e,
    };
    let (columns, f) = match parse_list_token(&ItemKind::Column, c, e) {
        None => {
            return None;
        },
        Some(x) => x,
    };
    match parse_token(c, f, close.as_slice()) {
        None => None,
        Some(g) => Some((Statement::CreateTable(CreateTableStatement { name, columns }), g)),
    }
}

fn parse_create_index(c: &Vec<char>, i: usize) -> (r: Option<(Statement, usize)>)
    requires
        i <= c@.len(),
    ensures
        match create_index_at(c@, i as nat) {
            Some((v, e)) => r matches Some((s, e2)) && s@ == v && e2 == e,
            None => r is None,
        },
        r matches Some((s, e)) ==> e <= c@.len(),
{
    let kw_c = ['c', 'r', 'e', 'a', 't', 'e'];
    let kw_i = ['i', 'n', 'd', 'e', 'x'];
    let kw_o = ['o', 'n'];
    let open = ['('];
    let close = [')'];
    proof {
        assert(kw_c@ == kw_create());
        assert(kw_i@ == kw_index());
        assert(kw_o@ == kw_on());
        assert(open@ == seq!['(']);
        assert(close@ == seq![')']);
    }
    let a = match parse_token(c, i, kw_c.as_slice()) {
        None => {
            return None;
        },
        Some(a) => a,
    };
    let b = match parse_token(c, a, kw_i.as_slice()) {
        None => {
            return None;
        },
        Some(b) => b,
    };
    let (name, d) = match parse_ident_token(c, b) {
        None => {
            return None;
        },
        Some(x) => x,
    };
    let e = match parse_token(c, d, kw_o.as_slice()) {
        None => {
            return None;
        },
        Some(e) => e,
    };
    let (table_name, f) = match parse_ident_token(c, e) {
        None => {
            return None;
        },
        Some(x) => x,
    };
    let g = match parse_token(c, f, open.as_slice()) {
        None => {
            return None;
        },
        Some(g) => g,
    };
    let (columns, h) = match parse_list_token(&ItemKind::Ident, c, g) {
        None => {
            return None;
        },
        Some(x) => x,
    };
    match parse_token(c, h, close.as_slice()) {
        None => None,
        Some(k) => Some(
            (Statement::CreateIndex(CreateIndexStatement { name, table_name, columns }), k),
        ),
    }
}

/// Parses a whole statement; text outside the grammar fails with
/// [`DbError::Parse`].
pub fn sql_statement(input: &str) -> (r: Result<Statement, DbError>)
    ensures
        match parse_statement(input@) {
            Some(v) => r matches Ok(s) && s@ == v,
            None => r == Err::<Statement, DbError>(DbError::Parse),
        },
{
    let c = chars_of(input);
    let parsed = match parse_select(&c, 0) {
        Some(x) => Some(x),
        None => match parse_create_table(&c, 0) {
            Some(x) => Some(x),
            None => parse_create_index(&c, 0),
        },
    };
    match parsed {
        Some((s, e)) => if skip_whitespace(&c, e) == c.len() {
            Ok(s)
        } else {
            Err(DbError::Parse)
        },
        None => Err(DbError::Parse),
    }
}

} // verus!
