//! The row-insertion language: a lexer, a parser with one token of lookahead
//! that yields statements, and the checks of an insertion against the catalogue.
use vstd::prelude::*;

use crate::catalogue::{has_column, has_table, table_index, Catalogue, ColumnV, TableV};
use crate::ddl::texts;
use crate::text::{is_whitespace, is_whitespace_char, same_text, slice_text};

verus! {

/// What a statement token is, as the lexer classifies it.
#[derive(Debug, PartialEq, Clone)]
pub enum DMLTokenType {
    Insert,
    Into,
    Values,
    Commit,
    OpenParenthesis,
    CloseParenthesis,
    Comma,
    Identifier(String),
    String(String),
    /// A run that starts with a digit, kept as written.
    Number(String),
    SemiColon,
}

/// A statement token with the index of its first character in the text.
#[derive(Debug, PartialEq, Clone)]
pub struct DMLToken {
    pub token_type: DMLTokenType,
    pub position: usize,
}

/// The mathematical value of a token kind.
pub enum DmlKind {
    Insert,
    Into,
    Values,
    Commit,
    OpenParenthesis,
    CloseParenthesis,
    Comma,
    Identifier(Seq<char>),
    String(Seq<char>),
    Number(Seq<char>),
    SemiColon,
}

/// The mathematical value of a token.
pub struct DmlTok {
    pub kind: DmlKind,
    pub position: nat,
}

impl View for DMLTokenType {
    type V = DmlKind;

    open spec fn view(&self) -> DmlKind {
        match self {
            DMLTokenType::Insert => DmlKind::Insert,
            DMLTokenType::Into => DmlKind::Into,
            DMLTokenType::Values => DmlKind::Values,
            DMLTokenType::Commit => DmlKind::Commit,
            DMLTokenType::OpenParenthesis => DmlKind::OpenParenthesis,
            DMLTokenType::CloseParenthesis => DmlKind::CloseParenthesis,
            DMLTokenType::Comma => DmlKind::Comma,
            DMLTokenType::Identifier(v) => DmlKind::Identifier(v@),
            DMLTokenType::String(v) => DmlKind::String(v@),
            DMLTokenType::Number(v) => DmlKind::Number(v@),
            DMLTokenType::SemiColon => DmlKind::SemiColon,
        }
    }
}

impl View for DMLToken {
    type V = DmlTok;

    open spec fn view(&self) -> DmlTok {
        DmlTok { kind: self.token_type@, position: self.position as nat }
    }
}

/// The characters that end a word or a number: white space and `( ) , ;`.
pub open spec fn is_delimiter(c: char) -> bool {
    is_whitespace_char(c) || c == '(' || c == ')' || c == ',' || c == ';'
}

/// Where the run of non-delimiters that starts at `i` ends.
pub open spec fn run_end(s: Seq<char>, i: int) -> int
    decreases s.len() - i,
{
    if 0 <= i < s.len() && !is_delimiter(s[i]) {
        run_end(s, i + 1)
    } else {
        i
    }
}

/// The index of the first quote at or after `i`, or the length of the text.
pub open spec fn quote_end(s: Seq<char>, i: int) -> int
    decreases s.len() - i,
{
    if 0 <= i < s.len() && s[i] != '\'' {
        quote_end(s, i + 1)
    } else {
        i
    }
}

/// A run of non-delimiters ends at or after where it starts, not past the text.
pub proof fn lemma_run_end(s: Seq<char>, i: int)
    requires
        0 <= i <= s.len(),
    ensures
        i <= run_end(s, i) <= s.len(),
    decreases s.len() - i,
{
    if i < s.len() && !is_delimiter(s[i]) {
        lemma_run_end(s, i + 1);
    }
}

/// A quoted run ends at or after where it starts, not past the text.
pub proof fn lemma_quote_end(s: Seq<char>, i: int)
    requires
        0 <= i <= s.len(),
    ensures
        i <= quote_end(s, i) <= s.len(),
    decreases s.len() - i,
{
    if i < s.len() && s[i] != '\'' {
        lemma_quote_end(s, i + 1);
    }
}

/// The token kind of a word: one of the keywords, else an identifier.
pub open spec fn word_kind(w: Seq<char>) -> DmlKind {
    if w == "insert"@ {
        DmlKind::Insert
    } else if w == "into"@ {
        DmlKind::Into
    } else if w == "values"@ {
        DmlKind::Values
    } else if w == "commit"@ {
        DmlKind::Commit
    } else {
        DmlKind::Identifier(w)
    }
}

/// The token kind of a one-character token.
pub open spec fn single_kind(c: char) -> Option<DmlKind> {
    if c == '(' {
        Some(DmlKind::OpenParenthesis)
    } else if c == ')' {
        Some(DmlKind::CloseParenthesis)
    } else if c == ',' {
        Some(DmlKind::Comma)
    } else if c == ';' {
        Some(DmlKind::SemiColon)
    } else {
        None
    }
}

/// Whether a character is an ASCII digit.
pub open spec fn is_digit(c: char) -> bool {
    '0' <= c <= '9'
}

/// The tokens of `s` from index `i` on. White space is skipped; `( ) , ;` are one
/// token each; a quote starts a string that runs to the next quote (which is
/// dropped) or to the end; a run of non-delimiters is a number when it starts
/// with a digit, else a keyword or an identifier.
pub open spec fn dml_lex_from(s: Seq<char>, i: int) -> Seq<DmlTok>
    decreases s.len() - i,
{
    if i < 0 || i >= s.len() {
        seq![]
    } else if is_whitespace_char(s[i]) {
        dml_lex_from(s, i + 1)
    } else if single_kind(s[i]) is Some {
        seq![DmlTok { kind: single_kind(s[i])->Some_0, position: i as nat }] + dml_lex_from(
            s,
            i + 1,
        )
    } else if s[i] == '\'' {
        let e = quote_end(s, i + 1);
        proof {
            lemma_quote_end(s, i + 1);
        }
        seq![DmlTok { kind: DmlKind::String(s.subrange(i + 1, e)), position: i as nat }]
            + dml_lex_from(
            s,
            if e < s.len() {
                e + 1
            } else {
                e
            },
        )
    } else {
        let e = run_end(s, i + 1);
        proof {
            lemma_run_end(s, i + 1);
        }
        let w = s.subrange(i, e);
        seq![
            DmlTok {
                kind: if is_digit(s[i]) {
                    DmlKind::Number(w)
                } else {
                    word_kind(w)
                },
                position: i as nat,
            },
        ] + dml_lex_from(s, e)
    }
}

/// The tokens of a statement text.
pub open spec fn dml_lex(s: Seq<char>) -> Seq<DmlTok> {
    dml_lex_from(s, 0)
}

/// Splits statement text into tokens, one at a time.
pub struct DMLLexer {
    input: String,
    position: usize,
}

impl DMLLexer {
    /// The text being read.
    pub closed spec fn text(&self) -> Seq<char> {
        self.input@
    }

    /// How far the lexer has read.
    pub closed spec fn pos(&self) -> int {
        self.position as int
    }

    pub closed spec fn wf(&self) -> bool {
        self.position <= self.input@.len()
    }

    pub fn new(input: String) -> (r: DMLLexer)
        ensures
            r.wf(),
            r.text() == input@,
            r.pos() == 0,
    {
        DMLLexer { input, position: 0 }
    }

    /// Reads the next token; `None` once only white space is left.
    pub fn next_token(&mut self) -> (r: Option<DMLToken>)
        requires
            old(self).wf(),
        ensures
            final(self).wf(),
            final(self).text() == old(self).text(),
            match r {
                None => {
                    &&& dml_lex_from(old(self).text(), old(self).pos()) == Seq::<DmlTok>::empty()
                    &&& final(self).pos() == final(self).text().len()
                },
                Some(t) => {
                    &&& dml_lex_from(old(self).text(), old(self).pos()) == seq![t@]
                        + dml_lex_from(final(self).text(), final(self).pos())
                    &&& old(self).pos() < final(self).pos()
                },
            },
    {
        let n = self.input.as_str().unicode_len();
        let ghost s = self.input@;
        while self.position < n
            invariant
                self.wf(),
                self.input@ == s,
                s == old(self).input@,
                n == s.len(),
                old(self).position <= self.position,
                dml_lex_from(s, old(self).position as int) == dml_lex_from(s, self.position as int),
            decreases n - self.position,
        {
            let i = self.position;
            let c = self.input.as_str().get_char(i);
            if is_whitespace(c) {
                self.position = i + 1;
            } else if c == '(' || c == ')' || c == ',' || c == ';' {
                let token_type = if c == '(' {
                    DMLTokenType::OpenParenthesis
                } else if c == ')' {
                    DMLTokenType::CloseParenthesis
                } else if c == ',' {
                    DMLTokenType::Comma
                } else {
                    DMLTokenType::SemiColon
                };
                self.position = i + 1;
                return Some(DMLToken { token_type, position: i });
            } else if c == '\'' {
                let mut end: usize = i + 1;
                while end < n && self.input.as_str().get_char(end) != '\''
                    invariant
                        i < end <= n,
                        n == s.len(),
                        self.input@ == s,
                        quote_end(s, end as int) == quote_end(s, i + 1),
                    decreases n - end,
                {
                    end = end + 1;
                }
                let value = slice_text(self.input.as_str(), i + 1, end);
                self.position = if end < n {
                    end + 1
                } else {
                    end
                };
                return Some(DMLToken { token_type: DMLTokenType::String(value), position: i });
            } else {
                let mut end: usize = i + 1;
                while end < n && !is_delimiter_char(self.input.as_str().get_char(end))
                    invariant
                        i < end <= n,
                        n == s.len(),
                        self.input@ == s,
                        run_end(s, end as int) == run_end(s, i + 1),
                    decreases n - end,
                {
                    end = end + 1;
                }
                let word = slice_text(self.input.as_str(), i, end);
                let token_type = if '0' <= c && c <= '9' {
                    DMLTokenType::Number(word)
                } else if same_text(word.as_str(), "insert") {
                    DMLTokenType::Insert
                } else if same_text(word.as_str(), "into") {
                    DMLTokenType::Into
                } else if same_text(word.as_str(), "values") {
                    DMLTokenType::Values
                } else if same_text(word.as_str(), "commit") {
                    DMLTokenType::Commit
                } else {
                    DMLTokenType::Identifier(word)
                };
                self.position = end;
                return Some(DMLToken { token_type, position: i });
            }
        }
        None
    }
}

fn is_delimiter_char(c: char) -> (r: bool)
    ensures
        r == is_delimiter(c),
{
    is_whitespace(c) || c == '(' || c == ')' || c == ',' || c == ';'
}

/// A parsed statement. Only insertions and commits are ever produced.
#[derive(Debug, Clone)]
pub enum DMLStatement {
    Insert(DMLInsertStatement),
    Update,
    Delete,
    Select,
    Commit,
}

/// An insertion. Values are matched to columns by position. The two lists are
/// not compared in length: where they differ, the items past the shorter list
/// are left unpaired and are not stored.
#[derive(Debug, Clone)]
pub struct DMLInsertStatement {
    pub table_name: String,
    pub columns: Vec<String>,
    pub values: Vec<String>,
}

/// The mathematical value of an insertion.
pub struct InsertV {
    pub table_name: Seq<char>,
    pub columns: Seq<Seq<char>>,
    pub values: Seq<Seq<char>>,
}

/// The mathematical value of a statement.
pub enum StatementV {
    Insert(InsertV),
    Update,
    Delete,
    Select,
    Commit,
}

impl View for DMLInsertStatement {
    type V = InsertV;

    open spec fn view(&self) -> InsertV {
        InsertV {
            table_name: self.table_name@,
            columns: texts(self.columns@),
            values: texts(self.values@),
        }
    }
}

impl View for DMLStatement {
    type V = StatementV;

    open spec fn view(&self) -> StatementV {
        match self {
            DMLStatement::Insert(i) => StatementV::Insert(i@),
            DMLStatement::Update => StatementV::Update,
            DMLStatement::Delete => StatementV::Delete,
            DMLStatement::Select => StatementV::Select,
            DMLStatement::Commit => StatementV::Commit,
        }
    }
}

/// The view of an optional statement.
pub open spec fn statement_view(r: Option<DMLStatement>) -> Option<StatementV> {
    match r {
        Some(st) => Some(st@),
        None => None,
    }
}

/// The view of an optional token.
pub open spec fn token_view(r: Option<DMLToken>) -> Option<DmlTok> {
    match r {
        Some(t) => Some(t@),
        None => None,
    }
}

/// The token at `k`, if there is one.
pub open spec fn tok_at(t: Seq<DmlTok>, k: int) -> Option<DmlTok> {
    if 0 <= k < t.len() {
        Some(t[k])
    } else {
        None
    }
}

/// The kind of the token at `k`, if there is one.
pub open spec fn kind_at(t: Seq<DmlTok>, k: int) -> Option<DmlKind> {
    if 0 <= k < t.len() {
        Some(t[k].kind)
    } else {
        None
    }
}

/// The identifiers from token `k` up to the first `)` or the end; other tokens
/// are passed over. The result is the identifiers and where reading stopped:
/// at the `)`, or past the last token.
pub open spec fn collect_names(t: Seq<DmlTok>, k: int) -> (Seq<Seq<char>>, int)
    decreases t.len() - k,
{
    if k < 0 || k >= t.len() {
        (seq![], k)
    } else if t[k].kind is CloseParenthesis {
        (seq![], k)
    } else if t[k].kind is Identifier {
        (seq![t[k].kind->Identifier_0] + collect_names(t, k + 1).0, collect_names(t, k + 1).1)
    } else {
        collect_names(t, k + 1)
    }
}

/// The string literals from token `k` up to the first `)` or the end, read as
/// `collect_names` reads identifiers.
pub open spec fn collect_strings(t: Seq<DmlTok>, k: int) -> (Seq<Seq<char>>, int)
    decreases t.len() - k,
{
    if k < 0 || k >= t.len() {
        (seq![], k)
    } else if t[k].kind is CloseParenthesis {
        (seq![], k)
    } else if t[k].kind is String {
        (seq![t[k].kind->String_0] + collect_strings(t, k + 1).0, collect_strings(t, k + 1).1)
    } else {
        collect_strings(t, k + 1)
    }
}

/// Whether the token at `k` is an identifier.
pub open spec fn ident_at(t: Seq<DmlTok>, k: int) -> bool {
    kind_at(t, k) is Some && kind_at(t, k)->Some_0 is Identifier
}

/// Reads an insertion whose `insert` is token `k`. It expects, in order,
/// `into`, the table name, an optional parenthesised column list, `values`, a
/// parenthesised list of string literals and `;`; any other token there fails
/// the read. Without a column list the columns are empty and `values` follows
/// the table name. The result is the insertion, if one was read, and the index
/// of the token that is current afterwards.
pub open spec fn parse_insert(t: Seq<DmlTok>, k: int) -> (Option<InsertV>, int) {
    let has_columns = kind_at(t, k + 3) == Some(DmlKind::OpenParenthesis);
    let columns = collect_names(t, k + 4);
    let kv = if has_columns {
        columns.1 + 1
    } else {
        k + 3
    };
    let values = collect_strings(t, kv + 2);
    if kind_at(t, k + 1) != Some(DmlKind::Into) {
        (None, k + 1)
    } else if !ident_at(t, k + 2) {
        (None, k + 2)
    } else if has_columns && kind_at(t, columns.1) != Some(DmlKind::CloseParenthesis) {
        (None, columns.1)
    } else if kind_at(t, kv) != Some(DmlKind::Values) {
        (None, kv)
    } else if kind_at(t, kv + 1) != Some(DmlKind::OpenParenthesis) {
        (None, kv + 1)
    } else if kind_at(t, values.1) != Some(DmlKind::CloseParenthesis) {
        (None, values.1)
    } else if kind_at(t, values.1 + 1) != Some(DmlKind::SemiColon) {
        (None, values.1 + 1)
    } else {
        (
            Some(
                InsertV {
                    table_name: kind_at(t, k + 2)->Some_0->Identifier_0,
                    columns: if has_columns {
                        columns.0
                    } else {
                        Seq::<Seq<char>>::empty()
                    },
                    values: values.0,
                },
            ),
            values.1 + 2,
        )
    }
}

/// Reads a statement whose first token is token `k`: an insertion, or `commit`
/// followed by `;`. Anything else gives no statement. The result is the
/// statement, if one was read, and the index of the token that is current
/// afterwards.
pub open spec fn parse_statement(t: Seq<DmlTok>, k: int) -> (Option<StatementV>, int) {
    if kind_at(t, k) == Some(DmlKind::Insert) {
        match parse_insert(t, k).0 {
            Some(i) => (Some(StatementV::Insert(i)), parse_insert(t, k).1),
            None => (None, parse_insert(t, k).1),
        }
    } else if kind_at(t, k) == Some(DmlKind::Commit) {
        if kind_at(t, k + 1) == Some(DmlKind::SemiColon) {
            (Some(StatementV::Commit), k + 2)
        } else {
            (None, k + 1)
        }
    } else {
        (None, k)
    }
}

/// The first statement of a text, if it has one.
pub open spec fn dml_parse(s: Seq<char>) -> Option<StatementV> {
    parse_statement(dml_lex(s), 0).0
}

/// Reads statements with a current token and the one after it.
pub struct DMLParser {
    lexer: DMLLexer,
    current_token: Option<DMLToken>,
    peek_token: Option<DMLToken>,
    index: Ghost<int>,
}

impl DMLParser {
    /// The tokens of the text being read.
    pub closed spec fn toks(&self) -> Seq<DmlTok> {
        dml_lex(self.lexer.text())
    }

    /// The index of the current token.
    pub closed spec fn current(&self) -> int {
        self.index@
    }

    pub closed spec fn wf(&self) -> bool {
        let t = dml_lex(self.lexer.text());
        let k = self.index@;
        &&& self.lexer.wf()
        &&& 0 <= k
        &&& token_view(self.current_token) == tok_at(t, k)
        &&& token_view(self.peek_token) == tok_at(t, k + 1)
        &&& dml_lex_from(self.lexer.text(), self.lexer.pos()) == if k + 2 <= t.len() {
            t.subrange(k + 2, t.len() as int)
        } else {
            Seq::<DmlTok>::empty()
        }
    }

    pub fn new(input: String) -> (r: DMLParser)
        ensures
            r.wf(),
            r.toks() == dml_lex(input@),
            r.current() == 0,
    {
        let mut lexer = DMLLexer::new(input);
        let ghost s = lexer.text();
        let current_token = lexer.next_token();
        let peek_token = lexer.next_token();
        let r = DMLParser { lexer, current_token, peek_token, index: Ghost(0) };
        proof {
            let t = dml_lex(s);
            if t.len() >= 2 {
                assert(t.subrange(2, t.len() as int) =~= dml_lex_from(s, r.lexer.pos()));
            }
        }
        r
    }

    /// Moves one token on.
    pub fn next_token(&mut self)
        requires
            old(self).wf(),
        ensures
            final(self).wf(),
            final(self).toks() == old(self).toks(),
            final(self).current() == old(self).current() + 1,
    {
        let ghost t = self.toks();
        let ghost k = self.index@;
        let ghost s = self.lexer.text();
        let ghost p = self.lexer.pos();
        self.current_token = self.peek_token.take();
        let next = self.lexer.next_token();
        proof {
            if k + 2 < t.len() {
                let rest = t.subrange(k + 2, t.len() as int);
                assert(rest =~= seq![t[k + 2]] + t.subrange(k + 3, t.len() as int));
                assert(dml_lex_from(s, p) == rest);
                assert(next is Some);
                let x = next->Some_0;
                let tail = dml_lex_from(s, self.lexer.pos());
                assert((seq![x@] + tail)[0] == x@);
                assert((seq![x@] + tail).subrange(1, (seq![x@] + tail).len() as int) =~= tail);
                assert(rest.subrange(1, rest.len() as int) =~= t.subrange(k + 3, t.len() as int));
            }
        }
        self.peek_token = next;
        self.index = Ghost(k + 1);
    }

    fn current_is_into(&self) -> (r: bool)
        requires
            self.wf(),
        ensures
            r == (kind_at(self.toks(), self.current()) == Some(DmlKind::Into)),
    {
        match &self.current_token {
            Some(tok) => matches!(tok.token_type, DMLTokenType::Into),
            None => false,
        }
    }

    fn current_is_values(&self) -> (r: bool)
        requires
            self.wf(),
        ensures
            r == (kind_at(self.toks(), self.current()) == Some(DmlKind::Values)),
    {
        match &self.current_token {
            Some(tok) => matches!(tok.token_type, DMLTokenType::Values),
            None => false,
        }
    }

    fn current_is_open(&self) -> (r: bool)
        requires
            self.wf(),
        ensures
            r == (kind_at(self.toks(), self.current()) == Some(DmlKind::OpenParenthesis)),
    {
        match &self.current_token {
            Some(tok) => matches!(tok.token_type, DMLTokenType::OpenParenthesis),
            None => false,
        }
    }

    fn current_is_close(&self) -> (r: bool)
        requires
            self.wf(),
        ensures
            r == (kind_at(self.toks(), self.current()) == Some(DmlKind::CloseParenthesis)),
    {
        match &self.current_token {
            Some(tok) => matches!(tok.token_type, DMLTokenType::CloseParenthesis),
            None => false,
        }
    }

    fn current_is_semicolon(&self) -> (r: bool)
        requires
            self.wf(),
        ensures
            r == (kind_at(self.toks(), self.current()) == Some(DmlKind::SemiColon)),
    {
        match &self.current_token {
            Some(tok) => matches!(tok.token_type, DMLTokenType::SemiColon),
            None => false,
        }
    }

    /// Reads identifiers up to the first `)`, or string literals when `strings` is set.
    fn collect(&mut self, strings: bool) -> (r: Vec<String>)
        requires
            old(self).wf(),
        ensures
            final(self).wf(),
            final(self).toks() == old(self).toks(),
            (texts(r@), final(self).current()) == if strings {
                collect_strings(old(self).toks(), old(self).current())
            } else {
                collect_names(old(self).toks(), old(self).current())
            },
    {
        let ghost t = self.toks();
        let ghost k0 = self.current();
        let mut items: Vec<String> = Vec::new();
        loop
            invariant_except_break
                texts(items@) + (if strings {
                    collect_strings(t, self.current())
                } else {
                    collect_names(t, self.current())
                }).0 == (if strings {
                    collect_strings(t, k0)
                } else {
                    collect_names(t, k0)
                }).0,
                (if strings {
                    collect_strings(t, self.current())
                } else {
                    collect_names(t, self.current())
                }).1 == (if strings {
                    collect_strings(t, k0)
                } else {
                    collect_names(t, k0)
                }).1,
            invariant
                self.wf(),
                self.toks() == t,
                t == old(self).toks(),
                k0 == old(self).current(),
                k0 <= self.current(),
            ensures
                (texts(items@), self.current()) == if strings {
                    collect_strings(t, k0)
                } else {
                    collect_names(t, k0)
                },
            decreases t.len() - self.current(),
        {
            let ghost k = self.current();
            let ghost before = items@;
            match &self.current_token {
                None => {
                    assert(texts(items@) + Seq::<Seq<char>>::empty() =~= texts(items@));
                    break ;
                },
                Some(tok) => {
                    match &tok.token_type {
                        DMLTokenType::CloseParenthesis => {
                            assert(texts(items@) + Seq::<Seq<char>>::empty() =~= texts(items@));
                            break ;
                        },
                        DMLTokenType::Identifier(v) => {
                            if !strings {
                                items.push(v.clone());
                            }
                        },
                        DMLTokenType::String(v) => {
                            if strings {
                                items.push(v.clone());
                            }
                        },
                        _ => {},
                    }
                },
            }
            proof {
                if items@.len() > before.len() {
                    assert(texts(items@) =~= texts(before).push(items@.last()@));
                    assert(texts(items@) + (if strings {
                        collect_strings(t, k + 1)
                    } else {
                        collect_names(t, k + 1)
                    }).0 =~= texts(before) + (if strings {
                        collect_strings(t, k)
                    } else {
                        collect_names(t, k)
                    }).0);
                } else {
                    assert(items@ == before);
                }
            }
            self.next_token();
        }
        items
    }

    /// Reads an insertion; the current token is `insert`.
    fn parse_insert_statement(&mut self) -> (r: Option<DMLInsertStatement>)
        requires
            old(self).wf(),
        ensures
            final(self).wf(),
            final(self).toks() == old(self).toks(),
            (match r {
                Some(i) => Some(i@),
                None => None,
            }, final(self).current()) == parse_insert(old(self).toks(), old(self).current()),
    {
        // insert
        self.next_token();
        // into
        if !self.current_is_into() {
            return None;
        }
        self.next_token();
        // table name
        let table_name = match &self.current_token {
            Some(tok) => match &tok.token_type {
                DMLTokenType::Identifier(v) => v.clone(),
                _ => {
                    return None;
                },
            },
            None => {
                return None;
            },
        };
        self.next_token();
        // columns, if listed
        let columns = if self.current_is_open() {
            self.next_token();
            let names = self.collect(false);
            if !self.current_is_close() {
                return None;
            }
            self.next_token();
            names
        } else {
            Vec::new()
        };
        // values
        if !self.current_is_values() {
            return None;
        }
        self.next_token();
        if !self.current_is_open() {
            return None;
        }
        self.next_token();
        let values = self.collect(true);
        if !self.current_is_close() {
            return None;
        }
        self.next_token();
        if !self.current_is_semicolon() {
            return None;
        }
        self.next_token();
        proof {
            if columns@.len() == 0 {
                assert(texts(columns@) =~= Seq::<Seq<char>>::empty());
            }
        }
        Some(DMLInsertStatement { table_name, columns, values })
    }

    /// Reads the statement at the current token: an insertion, or `commit;`.
    pub fn parse(&mut self) -> (r: Option<DMLStatement>)
        requires
            old(self).wf(),
        ensures
            final(self).wf(),
            final(self).toks() == old(self).toks(),
            (statement_view(r), final(self).current()) == parse_statement(
                old(self).toks(),
                old(self).current(),
            ),
    {
        let is_insert = match &self.current_token {
            Some(tok) => matches!(tok.token_type, DMLTokenType::Insert),
            None => false,
        };
        let is_commit = match &self.current_token {
            Some(tok) => matches!(tok.token_type, DMLTokenType::Commit),
            None => false,
        };
        if is_insert {
            match self.parse_insert_statement() {
                Some(insert_statement) => Some(DMLStatement::Insert(insert_statement)),
                None => None,
            }
        } else if is_commit {
            self.next_token();
            if self.current_is_semicolon() {
                self.next_token();
                Some(DMLStatement::Commit)
            } else {
                None
            }
        } else {
            None
        }
    }
}

/// The first statement of a text; malformed text gives `None`, never an error.
pub fn parse(query: &str) -> (r: Option<DMLStatement>)
    ensures
        statement_view(r) == dml_parse(query@),
{
    let mut parser = DMLParser::new(String::from_str(query));
    parser.parse()
}

/// The message for an insertion into a table that does not exist.
pub open spec fn missing_table_message(table: Seq<char>) -> Seq<char> {
    "Table "@ + table + " does not exist"@
}

/// The message for a column that the table does not have.
pub open spec fn missing_column_message(column: Seq<char>, table: Seq<char>) -> Seq<char> {
    "Column "@ + column + " does not exist in table "@ + table
}

/// The views of a list of statements.
pub open spec fn statement_views(v: Seq<DMLStatement>) -> Seq<StatementV> {
    v.map_values(|st: DMLStatement| st@)
}

/// One message for each insertion, in order, whose table does not exist.
pub open spec fn table_errors(ts: Seq<TableV>, sts: Seq<StatementV>) -> Seq<Seq<char>>
    decreases sts.len(),
{
    if sts.len() == 0 {
        seq![]
    } else if sts.last() is Insert && !has_table(ts, sts.last()->Insert_0.table_name) {
        table_errors(ts, sts.drop_last()).push(
            missing_table_message(sts.last()->Insert_0.table_name),
        )
    } else {
        table_errors(ts, sts.drop_last())
    }
}

/// One message for each of `columns`, in order, that is not among `cs`.
pub open spec fn missing_columns(cs: Seq<ColumnV>, columns: Seq<Seq<char>>, table: Seq<char>) -> Seq<
    Seq<char>,
>
    decreases columns.len(),
{
    if columns.len() == 0 {
        seq![]
    } else if has_column(cs, columns.last()) {
        missing_columns(cs, columns.drop_last(), table)
    } else {
        missing_columns(cs, columns.drop_last(), table).push(
            missing_column_message(columns.last(), table),
        )
    }
}

/// For each insertion into an existing table, in order, one message for each
/// named column that the table lacks. The table is the first of that name.
pub open spec fn column_errors(ts: Seq<TableV>, sts: Seq<StatementV>) -> Seq<Seq<char>>
    decreases sts.len(),
{
    if sts.len() == 0 {
        seq![]
    } else if sts.last() is Insert && has_table(ts, sts.last()->Insert_0.table_name) {
        let i = sts.last()->Insert_0;
        column_errors(ts, sts.drop_last()) + missing_columns(
            ts[table_index(ts, i.table_name)].columns,
            i.columns,
            i.table_name,
        )
    } else {
        column_errors(ts, sts.drop_last())
    }
}

/// The messages of both checks on the statements: tables first, then columns.
pub open spec fn dml_analysis(ts: Seq<TableV>, sts: Seq<StatementV>) -> Seq<Seq<char>> {
    table_errors(ts, sts) + column_errors(ts, sts)
}

/// Checks statements against the catalogue; it never changes the catalogue.
pub struct DMLAnalyzer {
    statements: Vec<DMLStatement>,
}

impl DMLAnalyzer {
    /// The statements under analysis.
    pub closed spec fn subject(&self) -> Seq<StatementV> {
        statement_views(self.statements@)
    }

    pub fn new(statements: Vec<DMLStatement>) -> (r: DMLAnalyzer)
        ensures
            r.subject() == statement_views(statements@),
    {
        DMLAnalyzer { statements }
    }

    /// The messages of both checks, read from one state of the catalogue.
    pub fn analyze(&self, catalogue: &Catalogue) -> (errors: Vec<String>)
        ensures
            texts(errors@) == dml_analysis(catalogue@, self.subject()),
    {
        let mut errors = self.check_table_exists(catalogue);
        let mut more = self.check_columns_exist(catalogue);
        let ghost first = errors@;
        let ghost second = more@;
        errors.append(&mut more);
        assert(texts(errors@) =~= texts(first) + texts(second));
        errors
    }

    /// Each insertion's table must exist.
    pub fn check_table_exists(&self, catalogue: &Catalogue) -> (errors: Vec<String>)
        ensures
            texts(errors@) == table_errors(catalogue@, self.subject()),
    {
        let mut errors: Vec<String> = Vec::new();
        let n = self.statements.len();
        let mut i: usize = 0;
        while i < n
            invariant
                i <= n,
                n == self.statements@.len(),
                texts(errors@) == table_errors(catalogue@, self.subject().subrange(0, i as int)),
            decreases n - i,
        {
            let ghost before = errors@;
            match &self.statements[i] {
                DMLStatement::Insert(insert_statement) => {
                    if !catalogue.table_exists(insert_statement.table_name.as_str()) {
                        let msg = String::from_str("Table ").concat(
                            insert_statement.table_name.as_str(),
                        ).concat(" does not exist");
                        errors.push(msg);
                        assert(texts(errors@) =~= texts(before).push(msg@));
                    }
                },
                _ => {},
            }
            proof {
                let sub = self.subject().subrange(0, i + 1);
                assert(sub.drop_last() =~= self.subject().subrange(0, i as int));
                assert(sub.last() == self.statements@[i as int]@);
            }
            i = i + 1;
        }
        assert(self.subject().subrange(0, n as int) =~= self.subject());
        errors
    }

    /// Each column that an insertion names must exist on its table. An
    /// insertion into a table that does not exist adds nothing here.
    pub fn check_columns_exist(&self, catalogue: &Catalogue) -> (errors: Vec<String>)
        ensures
            texts(errors@) == column_errors(catalogue@, self.subject()),
    {
        let mut errors: Vec<String> = Vec::new();
        let n = self.statements.len();
        let mut i: usize = 0;
        while i < n
            invariant
                i <= n,
                n == self.statements@.len(),
                texts(errors@) == column_errors(catalogue@, self.subject().subrange(0, i as int)),
            decreases n - i,
        {
            let ghost before = errors@;
            match &self.statements[i] {
                DMLStatement::Insert(insert_statement) => {
                    match catalogue.get_table(insert_statement.table_name.as_str()) {
                        Some(table) => {
                            let ghost cs = table@.columns;
                            let ghost cols = texts(insert_statement.columns@);
                            let ghost tname = insert_statement.table_name@;
                            let m = insert_statement.columns.len();
                            let mut k: usize = 0;
                            while k < m
                                invariant
                                    k <= m,
                                    m == cols.len(),
                                    cols == texts(insert_statement.columns@),
                                    cs == table@.columns,
                                    tname == insert_statement.table_name@,
                                    texts(errors@) == texts(before) + missing_columns(
                                        cs,
                                        cols.subrange(0, k as int),
                                        tname,
                                    ),
                                decreases m - k,
                            {
                                let column = &insert_statement.columns[k];
                                let ghost mid = errors@;
                                if !table.column_exists(column.as_str()) {
                                    let msg = String::from_str("Column ").concat(
                                        column.as_str(),
                                    ).concat(" does not exist in table ").concat(
                                        insert_statement.table_name.as_str(),
                                    );
                                    errors.push(msg);
                                    assert(texts(errors@) =~= texts(mid).push(msg@));
                                }
                                proof {
                                    let sub = cols.subrange(0, k + 1);
                                    assert(sub.drop_last() =~= cols.subrange(0, k as int));
                                    assert(sub.last() == column@);
                                    assert(texts(errors@) =~= texts(before) + missing_columns(
                                        cs,
                                        sub,
                                        tname,
                                    ));
                                }
                                k = k + 1;
                            }
                            assert(cols.subrange(0, m as int) =~= cols);
                        },
                        None => {
                            assert(texts(errors@) =~= texts(before) + Seq::<Seq<char>>::empty());
                        },
                    }
                },
                _ => {
                    assert(texts(errors@) =~= texts(before) + Seq::<Seq<char>>::empty());
                },
            }
            proof {
                let sub = self.subject().subrange(0, i + 1);
                assert(sub.drop_last() =~= self.subject().subrange(0, i as int));
                assert(sub.last() == self.statements@[i as int]@);
            }
            i = i + 1;
        }
        assert(self.subject().subrange(0, n as int) =~= self.subject());
        errors
    }
}

/// The messages of both checks on one statement, read from one state of the
/// catalogue; the statement may be executed only if this is empty.
pub fn analyze(statement: DMLStatement, catalogue: &Catalogue) -> (errors: Vec<String>)
    ensures
        texts(errors@) == dml_analysis(catalogue@, seq![statement@]),
{
    let ghost v = statement@;
    let analyzer = DMLAnalyzer::new(vec![statement]);
    assert(analyzer.subject() =~= seq![v]);
    analyzer.analyze(catalogue)
}

/// An insertion into a table that the catalogue lacks gets exactly one message,
/// that the table does not exist; its columns are not looked at.
pub proof fn lemma_missing_table(ts: Seq<TableV>, i: InsertV)
    requires
        !has_table(ts, i.table_name),
    ensures
        dml_analysis(ts, seq![StatementV::Insert(i)]) == seq![missing_table_message(i.table_name)],
{
    let sts = seq![StatementV::Insert(i)];
    assert(sts.drop_last() =~= Seq::<StatementV>::empty());
    assert(table_errors(ts, Seq::<StatementV>::empty()) == Seq::<Seq<char>>::empty());
    assert(column_errors(ts, Seq::<StatementV>::empty()) == Seq::<Seq<char>>::empty());
    assert(table_errors(ts, sts) =~= seq![missing_table_message(i.table_name)]);
    assert(column_errors(ts, sts) =~= Seq::<Seq<char>>::empty());
    assert(dml_analysis(ts, sts) =~= seq![missing_table_message(i.table_name)]);
}

/// An insertion into an existing table that names exactly one column the table
/// lacks, at `k`, gets exactly one message, for that column.
pub proof fn lemma_one_missing_column(ts: Seq<TableV>, i: InsertV, k: int)
    requires
        has_table(ts, i.table_name),
        0 <= k < i.columns.len(),
        !has_column(ts[table_index(ts, i.table_name)].columns, i.columns[k]),
        forall|j: int|
            0 <= j < i.columns.len() && j != k ==> has_column(
                ts[table_index(ts, i.table_name)].columns,
                #[trigger] i.columns[j],
            ),
    ensures
        dml_analysis(ts, seq![StatementV::Insert(i)]) == seq![
            missing_column_message(i.columns[k], i.table_name),
        ],
{
    let sts = seq![StatementV::Insert(i)];
    let cs = ts[table_index(ts, i.table_name)].columns;
    assert(sts.drop_last() =~= Seq::<StatementV>::empty());
    assert(table_errors(ts, Seq::<StatementV>::empty()) == Seq::<Seq<char>>::empty());
    assert(column_errors(ts, Seq::<StatementV>::empty()) == Seq::<Seq<char>>::empty());
    assert(table_errors(ts, sts) =~= Seq::<Seq<char>>::empty());
    lemma_missing_columns_one(cs, i.columns, i.table_name, k);
    assert(column_errors(ts, sts) =~= missing_columns(cs, i.columns, i.table_name));
    assert(dml_analysis(ts, sts) =~= seq![missing_column_message(i.columns[k], i.table_name)]);
}

/// Every column present: no message.
pub proof fn lemma_missing_columns_none(cs: Seq<ColumnV>, columns: Seq<Seq<char>>, table: Seq<char>)
    requires
        forall|j: int| 0 <= j < columns.len() ==> has_column(cs, #[trigger] columns[j]),
    ensures
        missing_columns(cs, columns, table) == Seq::<Seq<char>>::empty(),
    decreases columns.len(),
{
    if columns.len() > 0 {
        assert(has_column(cs, columns[columns.len() - 1]));
        lemma_missing_columns_none(cs, columns.drop_last(), table);
    }
}

/// Exactly the column at `k` absent: one message, for it.
pub proof fn lemma_missing_columns_one(
    cs: Seq<ColumnV>,
    columns: Seq<Seq<char>>,
    table: Seq<char>,
    k: int,
)
    requires
        0 <= k < columns.len(),
        !has_column(cs, columns[k]),
        forall|j: int| 0 <= j < columns.len() && j != k ==> has_column(cs, #[trigger] columns[j]),
    ensures
        missing_columns(cs, columns, table) == seq![missing_column_message(columns[k], table)],
    decreases columns.len(),
{
    if k == columns.len() - 1 {
        lemma_missing_columns_none(cs, columns.drop_last(), table);
        assert(Seq::<Seq<char>>::empty().push(missing_column_message(columns[k], table))
            =~= seq![missing_column_message(columns[k], table)]);
    } else {
        assert(has_column(cs, columns[columns.len() - 1]));
        lemma_missing_columns_one(cs, columns.drop_last(), table, k);
    }
}

} // verus!
