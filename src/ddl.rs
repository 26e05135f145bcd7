//! The schema-definition language: a lexer, a recursive-descent parser that
//! builds models, and the structural checks run on parsed models.
use vstd::prelude::*;

use crate::basic_types::{basic_type_of, BasicType};
use crate::text::{
    decimal, decimal_text, is_alphabetic, is_alphabetic_char, is_whitespace, is_whitespace_char,
    same_text, slice_text,
};

verus! {

/// What a schema token is, as the lexer classifies it.
#[derive(Debug, PartialEq)]
pub enum DDLTokenType {
    Model,
    QuestionMark,
    AtSign,
    Type(String),
    Identifier(String),
    OpenBrace,
    CloseBrace,
    Comma,
    OpenParen,
    CloseParen,
}

/// A schema token with the index of its first character in the text.
#[derive(Debug)]
pub struct DDLToken {
    pub token_type: DDLTokenType,
    pub position: usize,
}

/// The mathematical value of a token kind.
pub enum DdlKind {
    Model,
    QuestionMark,
    AtSign,
    Type(Seq<char>),
    Identifier(Seq<char>),
    OpenBrace,
    CloseBrace,
    Comma,
    OpenParen,
    CloseParen,
}

/// The mathematical value of a token.
pub struct DdlTok {
    pub kind: DdlKind,
    pub position: nat,
}

impl View for DDLTokenType {
    type V = DdlKind;

    open spec fn view(&self) -> DdlKind {
        match self {
            DDLTokenType::Model => DdlKind::Model,
            DDLTokenType::QuestionMark => DdlKind::QuestionMark,
            DDLTokenType::AtSign => DdlKind::AtSign,
            DDLTokenType::Type(t) => DdlKind::Type(t@),
            DDLTokenType::Identifier(t) => DdlKind::Identifier(t@),
            DDLTokenType::OpenBrace => DdlKind::OpenBrace,
            DDLTokenType::CloseBrace => DdlKind::CloseBrace,
            DDLTokenType::Comma => DdlKind::Comma,
            DDLTokenType::OpenParen => DdlKind::OpenParen,
            DDLTokenType::CloseParen => DdlKind::CloseParen,
        }
    }
}

impl View for DDLToken {
    type V = DdlTok;

    open spec fn view(&self) -> DdlTok {
        DdlTok { kind: self.token_type@, position: self.position as nat }
    }
}

/// The token kind of a punctuation character.
pub open spec fn punct_kind(c: char) -> Option<DdlKind> {
    if c == '@' {
        Some(DdlKind::AtSign)
    } else if c == '?' {
        Some(DdlKind::QuestionMark)
    } else if c == ',' {
        Some(DdlKind::Comma)
    } else if c == '(' {
        Some(DdlKind::OpenParen)
    } else if c == ')' {
        Some(DdlKind::CloseParen)
    } else if c == '{' {
        Some(DdlKind::OpenBrace)
    } else if c == '}' {
        Some(DdlKind::CloseBrace)
    } else {
        None
    }
}

/// Whether a word is one of the type keywords.
pub open spec fn is_type_word(w: Seq<char>) -> bool {
    w == "Int"@ || w == "Float"@ || w == "String"@ || w == "Date"@
}

/// The token kind of an alphabetic word.
pub open spec fn word_kind(w: Seq<char>) -> DdlKind {
    if is_type_word(w) {
        DdlKind::Type(w)
    } else if w == "model"@ {
        DdlKind::Model
    } else {
        DdlKind::Identifier(w)
    }
}

/// Which characters of `s` are letters, as `char::is_alphabetic` says.
pub open spec fn letter_flags(s: Seq<char>) -> Seq<bool> {
    s.map_values(|c: char| is_alphabetic_char(c))
}

/// Whether the character at `i` is a letter, as `letters` marks it.
pub open spec fn letter_at(s: Seq<char>, letters: Seq<bool>, i: int) -> bool {
    0 <= i < s.len() && i < letters.len() && letters[i]
}

/// Where the run of letters that starts at `i` ends.
pub open spec fn alpha_end(s: Seq<char>, letters: Seq<bool>, i: int) -> int
    decreases s.len() - i,
{
    if letter_at(s, letters, i) {
        alpha_end(s, letters, i + 1)
    } else {
        i
    }
}

/// Whether the lexer rejects the character at `i`: it is neither white space,
/// nor a letter, nor punctuation.
pub open spec fn is_invalid_at(s: Seq<char>, letters: Seq<bool>, i: int) -> bool {
    !is_whitespace_char(s[i]) && !letter_at(s, letters, i) && punct_kind(s[i]) is None
}

/// The tokens of `s` from index `i` on, where `letters` marks which characters
/// are letters: white space and rejected characters are skipped, a run of
/// letters is one word, punctuation is one token each.
pub open spec fn lex_from(s: Seq<char>, letters: Seq<bool>, i: int) -> Seq<DdlTok>
    decreases s.len() - i,
{
    if i < 0 || i >= s.len() {
        seq![]
    } else if is_whitespace_char(s[i]) {
        lex_from(s, letters, i + 1)
    } else if letter_at(s, letters, i) {
        let j = alpha_end(s, letters, i + 1);
        proof {
            lemma_alpha_end(s, letters, i + 1);
        }
        seq![DdlTok { kind: word_kind(s.subrange(i, j)), position: i as nat }] + lex_from(
            s,
            letters,
            j,
        )
    } else if punct_kind(s[i]) is Some {
        seq![DdlTok { kind: punct_kind(s[i])->Some_0, position: i as nat }] + lex_from(
            s,
            letters,
            i + 1,
        )
    } else {
        lex_from(s, letters, i + 1)
    }
}

/// The tokens of a schema text.
pub open spec fn ddl_lex(s: Seq<char>) -> Seq<DdlTok> {
    lex_from(s, letter_flags(s), 0)
}

/// The message recorded for a rejected character.
pub open spec fn invalid_char_message(c: char) -> Seq<char> {
    "Invalid character: "@ + seq![c]
}

/// The messages for the rejected characters among the first `n` of `s`, in order.
pub open spec fn invalid_messages(s: Seq<char>, letters: Seq<bool>, n: int) -> Seq<Seq<char>>
    decreases n,
{
    if n <= 0 {
        seq![]
    } else if is_invalid_at(s, letters, n - 1) {
        invalid_messages(s, letters, n - 1).push(invalid_char_message(s[n - 1]))
    } else {
        invalid_messages(s, letters, n - 1)
    }
}

/// A run of letters ends at or after where it starts, and not past the text.
pub proof fn lemma_alpha_end(s: Seq<char>, letters: Seq<bool>, i: int)
    ensures
        i <= alpha_end(s, letters, i),
        0 <= i <= s.len() ==> alpha_end(s, letters, i) <= s.len(),
    decreases s.len() - i,
{
    if letter_at(s, letters, i) {
        lemma_alpha_end(s, letters, i + 1);
    }
}

/// Letters add no message for rejected characters.
pub proof fn lemma_invalid_messages_skip_letters(s: Seq<char>, letters: Seq<bool>, i: int, j: int)
    requires
        0 <= i <= j <= s.len(),
        forall|k: int| i <= k < j ==> #[trigger] letter_at(s, letters, k),
    ensures
        invalid_messages(s, letters, j) == invalid_messages(s, letters, i),
    decreases j - i,
{
    if i < j {
        lemma_invalid_messages_skip_letters(s, letters, i, j - 1);
        assert(letter_at(s, letters, j - 1));
    }
}

/// The views of a list of strings.
pub open spec fn texts(v: Seq<String>) -> Seq<Seq<char>> {
    v.map_values(|e: String| e@)
}

/// Marks which characters of `text` are letters.
pub fn letters_of(text: &str) -> (r: Vec<bool>)
    ensures
        r@ == letter_flags(text@),
{
    let n = text.unicode_len();
    let mut r: Vec<bool> = Vec::new();
    let mut i: usize = 0;
    while i < n
        invariant
            i <= n,
            n == text@.len(),
            r@ == letter_flags(text@).subrange(0, i as int),
        decreases n - i,
    {
        r.push(is_alphabetic(text.get_char(i)));
        assert(r@ =~= letter_flags(text@).subrange(0, i + 1));
        i = i + 1;
    }
    assert(letter_flags(text@).subrange(0, n as int) =~= letter_flags(text@));
    r
}

/// Splits schema text into tokens, one at a time.
pub struct DDLLexer {
    input: String,
    letters: Vec<bool>,
    position: usize,
    errors: Vec<String>,
}

impl DDLLexer {
    /// The text being read.
    pub closed spec fn text(&self) -> Seq<char> {
        self.input@
    }

    /// Which characters of the text are letters.
    pub closed spec fn letters(&self) -> Seq<bool> {
        self.letters@
    }

    /// How far the lexer has read.
    pub closed spec fn pos(&self) -> int {
        self.position as int
    }

    /// The messages for the rejected characters read so far.
    pub closed spec fn error_log(&self) -> Seq<Seq<char>> {
        texts(self.errors@)
    }

    pub closed spec fn wf(&self) -> bool {
        &&& self.position <= self.input@.len()
        &&& self.letters@.len() == self.input@.len()
        &&& texts(self.errors@) == invalid_messages(
            self.input@,
            self.letters@,
            self.position as int,
        )
    }

    /// A lexer over `input`, with each character classified by
    /// `char::is_alphabetic`.
    pub fn new(input: String) -> (r: DDLLexer)
        ensures
            r.wf(),
            r.text() == input@,
            r.letters() == letter_flags(input@),
            r.pos() == 0,
            r.error_log() == Seq::<Seq<char>>::empty(),
    {
        let letters = letters_of(input.as_str());
        DDLLexer::with_letters(input, letters)
    }

    /// A lexer over `input` where `letters` marks which characters are letters.
    pub fn with_letters(input: String, letters: Vec<bool>) -> (r: DDLLexer)
        requires
            letters@.len() == input@.len(),
        ensures
            r.wf(),
            r.text() == input@,
            r.letters() == letters@,
            r.pos() == 0,
            r.error_log() == Seq::<Seq<char>>::empty(),
    {
        let r = DDLLexer { input, letters, position: 0, errors: Vec::new() };
        assert(texts(r.errors@) =~= Seq::<Seq<char>>::empty());
        r
    }

    /// Reads the next token, skipping white space and recording each rejected
    /// character; `None` once the text is used up.
    pub fn next_token(&mut self) -> (r: Option<DDLToken>)
        requires
            old(self).wf(),
        ensures
            final(self).wf(),
            final(self).text() == old(self).text(),
            final(self).letters() == old(self).letters(),
            final(self).error_log() == invalid_messages(
                final(self).text(),
                final(self).letters(),
                final(self).pos(),
            ),
            match r {
                None => {
                    &&& lex_from(old(self).text(), old(self).letters(), old(self).pos())
                        == Seq::<DdlTok>::empty()
                    &&& final(self).pos() == final(self).text().len()
                },
                Some(t) => {
                    &&& lex_from(old(self).text(), old(self).letters(), old(self).pos()) == seq![
                        t@,
                    ] + lex_from(final(self).text(), final(self).letters(), final(self).pos())
                    &&& old(self).pos() < final(self).pos()
                },
            },
    {
        let n = self.input.as_str().unicode_len();
        let ghost s = self.input@;
        let ghost letters = self.letters@;
        let ghost start = self.position as int;
        while self.position < n
            invariant
                self.wf(),
                self.input@ == s,
                self.letters@ == letters,
                s == old(self).input@,
                letters == old(self).letters@,
                start == old(self).position,
                n == s.len(),
                start <= self.position,
                lex_from(s, letters, start) == lex_from(s, letters, self.position as int),
            decreases n - self.position,
        {
            let i = self.position;
            let c = self.input.as_str().get_char(i);
            if is_whitespace(c) {
                self.position = i + 1;
            } else if self.letters[i] {
                let mut end: usize = i + 1;
                while end < n && self.letters[end]
                    invariant
                        i < end <= n,
                        n == s.len(),
                        self.input@ == s,
                        self.letters@ == letters,
                        letters.len() == n,
                        alpha_end(s, letters, end as int) == alpha_end(s, letters, i + 1),
                        forall|k: int| i <= k < end ==> #[trigger] letter_at(s, letters, k),
                    decreases n - end,
                {
                    end = end + 1;
                }
                let word = slice_text(self.input.as_str(), i, end);
                let token_type = if same_text(word.as_str(), "Int") || same_text(
                    word.as_str(),
                    "Float",
                ) || same_text(word.as_str(), "String") || same_text(word.as_str(), "Date") {
                    DDLTokenType::Type(word)
                } else if same_text(word.as_str(), "model") {
                    DDLTokenType::Model
                } else {
                    DDLTokenType::Identifier(word)
                };
                proof {
                    lemma_invalid_messages_skip_letters(s, letters, i as int, end as int);
                }
                self.position = end;
                return Some(DDLToken { token_type, position: i });
            } else {
                let p = punct(c);
                self.position = i + 1;
                match p {
                    Some(token_type) => {
                        return Some(DDLToken { token_type, position: i });
                    },
                    None => {
                        let bad = slice_text(self.input.as_str(), i, i + 1);
                        let msg = String::from_str("Invalid character: ").concat(bad.as_str());
                        let ghost before = self.errors@;
                        self.errors.push(msg);
                        proof {
                            assert(texts(self.errors@) =~= texts(before).push(msg@));
                            assert(bad@ =~= seq![c]);
                        }
                    },
                }
            }
        }
        None
    }
}

/// The punctuation token of a character, if it is one.
fn punct(c: char) -> (r: Option<DDLTokenType>)
    ensures
        match r {
            Some(t) => punct_kind(c) == Some(t@),
            None => punct_kind(c) is None,
        },
{
    if c == '@' {
        Some(DDLTokenType::AtSign)
    } else if c == '?' {
        Some(DDLTokenType::QuestionMark)
    } else if c == ',' {
        Some(DDLTokenType::Comma)
    } else if c == '(' {
        Some(DDLTokenType::OpenParen)
    } else if c == ')' {
        Some(DDLTokenType::CloseParen)
    } else if c == '{' {
        Some(DDLTokenType::OpenBrace)
    } else if c == '}' {
        Some(DDLTokenType::CloseBrace)
    } else {
        None
    }
}

/// A field of a model, as declared in schema text.
#[derive(Debug, PartialEq, Clone)]
pub struct Field {
    pub name: String,
    pub field_type: BasicType,
    pub is_nullable: bool,
    pub is_primary_key: bool,
    pub is_foreign_key: bool,
    pub references: Option<(String, String)>,
}

/// A model: a named, ordered list of fields.
#[derive(Debug, PartialEq, Clone)]
pub struct Model {
    pub name: String,
    pub fields: Vec<Field>,
}

/// The mathematical value of a field.
pub struct FieldV {
    pub name: Seq<char>,
    pub field_type: BasicType,
    pub is_nullable: bool,
    pub is_primary_key: bool,
    pub is_foreign_key: bool,
    pub references: Option<(Seq<char>, Seq<char>)>,
}

/// The mathematical value of a model.
pub struct ModelV {
    pub name: Seq<char>,
    pub fields: Seq<FieldV>,
}

impl View for Field {
    type V = FieldV;

    open spec fn view(&self) -> FieldV {
        FieldV {
            name: self.name@,
            field_type: self.field_type,
            is_nullable: self.is_nullable,
            is_primary_key: self.is_primary_key,
            is_foreign_key: self.is_foreign_key,
            references: match self.references {
                Some(p) => Some((p.0@, p.1@)),
                None => None,
            },
        }
    }
}

impl View for Model {
    type V = ModelV;

    open spec fn view(&self) -> ModelV {
        ModelV { name: self.name@, fields: self.fields@.map_values(|f: Field| f@) }
    }
}

/// The views of a list of models.
pub open spec fn model_views(v: Seq<Model>) -> Seq<ModelV> {
    v.map_values(|m: Model| m@)
}

/// The views of a list of tokens.
pub open spec fn tok_views(v: Seq<DDLToken>) -> Seq<DdlTok> {
    v.map_values(|t: DDLToken| t@)
}

/// The kind of the token at `i`, if there is one.
pub open spec fn kind_at(t: Seq<DdlTok>, i: int) -> Option<DdlKind> {
    if 0 <= i < t.len() {
        Some(t[i].kind)
    } else {
        None
    }
}

/// Whether the token at `i` is an identifier.
pub open spec fn ident_at(t: Seq<DdlTok>, i: int) -> bool {
    kind_at(t, i) is Some && kind_at(t, i)->Some_0 is Identifier
}

/// The text of the identifier at `i`.
pub open spec fn ident_text(t: Seq<DdlTok>, i: int) -> Seq<char> {
    kind_at(t, i)->Some_0->Identifier_0
}

/// Whether the tokens from `k` on are `(`, an identifier, `,` and an identifier.
pub open spec fn references_shape(t: Seq<DdlTok>, k: int) -> bool {
    &&& kind_at(t, k) == Some(DdlKind::OpenParen)
    &&& ident_at(t, k + 1)
    &&& kind_at(t, k + 2) == Some(DdlKind::Comma)
    &&& ident_at(t, k + 3)
}

/// Reads the `@`-annotations of field `f` from token `j` on. The result is the
/// field and where reading stopped; the field is `None` where a
/// `@references(Model, Field)` is not of that exact shape, closing parenthesis
/// included.
pub open spec fn parse_annotations(t: Seq<DdlTok>, j: int, f: FieldV) -> (Option<FieldV>, int)
    decreases t.len() - j,
{
    if kind_at(t, j) != Some(DdlKind::AtSign) {
        (Some(f), j)
    } else if ident_at(t, j + 1) && ident_text(t, j + 1) == "id"@ {
        parse_annotations(t, j + 2, FieldV { is_primary_key: true, ..f })
    } else if ident_at(t, j + 1) && ident_text(t, j + 1) == "references"@ {
        if !references_shape(t, j + 2) {
            (None, j + 2)
        } else if kind_at(t, j + 6) != Some(DdlKind::CloseParen) {
            (None, j + 6)
        } else {
            parse_annotations(
                t,
                j + 7,
                FieldV { references: Some((ident_text(t, j + 3), ident_text(t, j + 5))), ..f },
            )
        }
    } else {
        parse_annotations(t, j + 1, f)
    }
}

/// Reads one field from token `i`: a name, a type keyword, an optional `?`, then
/// annotations. The result is the field, if one was read, and where reading stopped.
pub open spec fn parse_field(t: Seq<DdlTok>, i: int) -> (Option<FieldV>, int) {
    if !ident_at(t, i) {
        (None, i)
    } else if !(kind_at(t, i + 1) is Some && kind_at(t, i + 1)->Some_0 is Type) {
        (None, i + 1)
    } else if basic_type_of(kind_at(t, i + 1)->Some_0->Type_0) is None {
        (None, i + 1)
    } else {
        let nullable = kind_at(t, i + 2) == Some(DdlKind::QuestionMark);
        let f = FieldV {
            name: ident_text(t, i),
            field_type: basic_type_of(kind_at(t, i + 1)->Some_0->Type_0)->Some_0,
            is_nullable: nullable,
            is_primary_key: false,
            is_foreign_key: false,
            references: None,
        };
        parse_annotations(
            t,
            if nullable {
                i + 3
            } else {
                i + 2
            },
            f,
        )
    }
}

/// Annotations never move reading backwards.
pub proof fn lemma_parse_annotations_advances(t: Seq<DdlTok>, j: int, f: FieldV)
    requires
        0 <= j <= t.len(),
    ensures
        j <= parse_annotations(t, j, f).1 <= t.len(),
    decreases t.len() - j,
{
    if kind_at(t, j) != Some(DdlKind::AtSign) {
    } else if ident_at(t, j + 1) && ident_text(t, j + 1) == "id"@ {
        lemma_parse_annotations_advances(t, j + 2, FieldV { is_primary_key: true, ..f });
    } else if ident_at(t, j + 1) && ident_text(t, j + 1) == "references"@ {
        if !references_shape(t, j + 2) {
        } else if kind_at(t, j + 6) != Some(DdlKind::CloseParen) {
        } else {
            lemma_parse_annotations_advances(
                t,
                j + 7,
                FieldV { references: Some((ident_text(t, j + 3), ident_text(t, j + 5))), ..f },
            );
        }
    } else {
        lemma_parse_annotations_advances(t, j + 1, f);
    }
}

/// A field that was read takes at least two tokens.
pub proof fn lemma_parse_field_advances(t: Seq<DdlTok>, i: int)
    requires
        0 <= i <= t.len(),
    ensures
        i <= parse_field(t, i).1 <= t.len(),
        parse_field(t, i).0 is Some ==> parse_field(t, i).1 >= i + 2,
{
    if ident_at(t, i) && kind_at(t, i + 1) is Some && kind_at(t, i + 1)->Some_0 is Type
        && basic_type_of(kind_at(t, i + 1)->Some_0->Type_0) is Some {
        let nullable = kind_at(t, i + 2) == Some(DdlKind::QuestionMark);
        let f = FieldV {
            name: ident_text(t, i),
            field_type: basic_type_of(kind_at(t, i + 1)->Some_0->Type_0)->Some_0,
            is_nullable: nullable,
            is_primary_key: false,
            is_foreign_key: false,
            references: None,
        };
        lemma_parse_annotations_advances(
            t,
            if nullable {
                i + 3
            } else {
                i + 2
            },
            f,
        );
    }
}

/// Reads fields from token `i` until the tokens run out or a field cannot be
/// read. The result is the fields and where reading stopped.
pub open spec fn parse_fields(t: Seq<DdlTok>, i: int) -> (Seq<FieldV>, int)
    decreases t.len() - i,
{
    if i < 0 || i >= t.len() {
        (seq![], i)
    } else {
        proof {
            lemma_parse_field_advances(t, i);
        }
        match parse_field(t, i).0 {
            Some(f) => (
                seq![f] + parse_fields(t, parse_field(t, i).1).0,
                parse_fields(t, parse_field(t, i).1).1,
            ),
            None => (seq![], parse_field(t, i).1),
        }
    }
}

/// Reading fields never moves backwards.
pub proof fn lemma_parse_fields_advances(t: Seq<DdlTok>, i: int)
    requires
        0 <= i <= t.len(),
    ensures
        i <= parse_fields(t, i).1 <= t.len(),
    decreases t.len() - i,
{
    if 0 <= i < t.len() {
        lemma_parse_field_advances(t, i);
        if parse_field(t, i).0 is Some {
            lemma_parse_fields_advances(t, parse_field(t, i).1);
        }
    }
}

/// Reads one model from token `i`: `model`, a name, `{`, then its fields. No
/// closing brace is asked for. The result is the model, if one was read, and
/// where reading stopped.
pub open spec fn parse_model(t: Seq<DdlTok>, i: int) -> (Option<ModelV>, int) {
    if kind_at(t, i) != Some(DdlKind::Model) {
        (None, i)
    } else if !ident_at(t, i + 1) {
        (None, i + 1)
    } else if kind_at(t, i + 2) != Some(DdlKind::OpenBrace) {
        (None, i + 2)
    } else {
        (
            Some(ModelV { name: ident_text(t, i + 1), fields: parse_fields(t, i + 3).0 }),
            parse_fields(t, i + 3).1,
        )
    }
}

/// A model that was read takes at least three tokens.
pub proof fn lemma_parse_model_advances(t: Seq<DdlTok>, i: int)
    ensures
        parse_model(t, i).0 is Some ==> 0 <= i < t.len() && i + 3 <= parse_model(t, i).1 <= t.len(),
{
    if parse_model(t, i).0 is Some {
        lemma_parse_fields_advances(t, i + 3);
    }
}

/// The models read one after another from token `i`, until one cannot be read.
pub open spec fn parse_models(t: Seq<DdlTok>, i: int) -> Seq<ModelV>
    decreases t.len() - i,
{
    proof {
        lemma_parse_model_advances(t, i);
    }
    match parse_model(t, i).0 {
        Some(m) => seq![m] + parse_models(t, parse_model(t, i).1),
        None => seq![],
    }
}

/// The models of a schema text: the longest run of models that can be read
/// from its start.
pub open spec fn ddl_parse(s: Seq<char>) -> Seq<ModelV> {
    parse_models(ddl_lex(s), 0)
}

/// Reads models from the tokens of a schema text, which it lexes in full first.
pub struct DDLParser {
    lexer: DDLLexer,
    tokens: Vec<DDLToken>,
    position: usize,
}

impl DDLParser {
    /// The tokens being read.
    pub closed spec fn toks(&self) -> Seq<DdlTok> {
        tok_views(self.tokens@)
    }

    /// Which token the parser reads next.
    pub closed spec fn pos(&self) -> int {
        self.position as int
    }

    /// The messages for the characters that the lexer rejected.
    pub closed spec fn lexical_errors(&self) -> Seq<Seq<char>> {
        self.lexer.error_log()
    }

    pub closed spec fn wf(&self) -> bool {
        self.position <= self.tokens.len()
    }

    /// Takes every remaining token from the lexer.
    pub fn new(lexer: DDLLexer) -> (r: DDLParser)
        requires
            lexer.wf(),
        ensures
            r.wf(),
            r.toks() == lex_from(lexer.text(), lexer.letters(), lexer.pos()),
            r.pos() == 0,
            r.lexical_errors() == invalid_messages(
                lexer.text(),
                lexer.letters(),
                lexer.text().len() as int,
            ),
    {
        let mut lexer = lexer;
        let ghost s = lexer.text();
        let ghost letters = lexer.letters();
        let ghost first = lexer.pos();
        let mut tokens: Vec<DDLToken> = Vec::new();
        loop
            invariant
                lexer.wf(),
                lexer.text() == s,
                lexer.letters() == letters,
                tok_views(tokens@) + lex_from(s, letters, lexer.pos()) == lex_from(
                    s,
                    letters,
                    first,
                ),
                lexer.error_log() == invalid_messages(s, letters, lexer.pos()),
                lexer.pos() <= s.len(),
            ensures
                tok_views(tokens@) == lex_from(s, letters, first),
                lexer.error_log() == invalid_messages(s, letters, s.len() as int),
            decreases s.len() - lexer.pos(),
        {
            match lexer.next_token() {
                Some(t) => {
                    let ghost before = tokens@;
                    tokens.push(t);
                    proof {
                        assert(tok_views(tokens@) =~= tok_views(before).push(t@));
                        assert(tok_views(tokens@) + lex_from(s, letters, lexer.pos())
                            =~= tok_views(before) + (seq![t@] + lex_from(
                            s,
                            letters,
                            lexer.pos(),
                        )));
                    }
                },
                None => {
                    proof {
                        assert(tok_views(tokens@) + Seq::<DdlTok>::empty() =~= tok_views(tokens@));
                    }
                    break ;
                },
            }
        }
        DDLParser { lexer, tokens, position: 0 }
    }

    fn is_model(&self, i: usize) -> (r: bool)
        ensures
            r == (kind_at(self.toks(), i as int) == Some(DdlKind::Model)),
    {
        i < self.tokens.len() && matches!(self.tokens[i].token_type, DDLTokenType::Model)
    }

    fn is_open_brace(&self, i: usize) -> (r: bool)
        ensures
            r == (kind_at(self.toks(), i as int) == Some(DdlKind::OpenBrace)),
    {
        i < self.tokens.len() && matches!(self.tokens[i].token_type, DDLTokenType::OpenBrace)
    }

    fn is_question_mark(&self, i: usize) -> (r: bool)
        ensures
            r == (kind_at(self.toks(), i as int) == Some(DdlKind::QuestionMark)),
    {
        i < self.tokens.len() && matches!(self.tokens[i].token_type, DDLTokenType::QuestionMark)
    }

    fn is_at_sign(&self, i: usize) -> (r: bool)
        ensures
            r == (kind_at(self.toks(), i as int) == Some(DdlKind::AtSign)),
    {
        i < self.tokens.len() && matches!(self.tokens[i].token_type, DDLTokenType::AtSign)
    }

    fn is_open_paren(&self, i: usize) -> (r: bool)
        ensures
            r == (kind_at(self.toks(), i as int) == Some(DdlKind::OpenParen)),
    {
        i < self.tokens.len() && matches!(self.tokens[i].token_type, DDLTokenType::OpenParen)
    }

    fn is_comma(&self, i: usize) -> (r: bool)
        ensures
            r == (kind_at(self.toks(), i as int) == Some(DdlKind::Comma)),
    {
        i < self.tokens.len() && matches!(self.tokens[i].token_type, DDLTokenType::Comma)
    }

    fn is_close_paren(&self, i: usize) -> (r: bool)
        ensures
            r == (kind_at(self.toks(), i as int) == Some(DdlKind::CloseParen)),
    {
        i < self.tokens.len() && matches!(self.tokens[i].token_type, DDLTokenType::CloseParen)
    }

    /// The text of the identifier at `i`, if that token is one.
    fn identifier(&self, i: usize) -> (r: Option<String>)
        ensures
            r is Some == ident_at(self.toks(), i as int),
            r is Some ==> r->Some_0@ == ident_text(self.toks(), i as int),
    {
        if i < self.tokens.len() {
            match &self.tokens[i].token_type {
                DDLTokenType::Identifier(name) => Some(name.clone()),
                _ => None,
            }
        } else {
            None
        }
    }

    /// Whether the token at `i` is the identifier `word`.
    fn identifier_is(&self, i: usize, word: &str) -> (r: bool)
        ensures
            r == (ident_at(self.toks(), i as int) && ident_text(self.toks(), i as int) == word@),
    {
        if i < self.tokens.len() {
            match &self.tokens[i].token_type {
                DDLTokenType::Identifier(name) => same_text(name.as_str(), word),
                _ => false,
            }
        } else {
            false
        }
    }

    /// The type keyword at `i`, if that token is one.
    fn type_keyword(&self, i: usize) -> (r: Option<String>)
        ensures
            r is Some == (kind_at(self.toks(), i as int) is Some && kind_at(
                self.toks(),
                i as int,
            )->Some_0 is Type),
            r is Some ==> r->Some_0@ == kind_at(self.toks(), i as int)->Some_0->Type_0,
    {
        if i < self.tokens.len() {
            match &self.tokens[i].token_type {
                DDLTokenType::Type(name) => Some(name.clone()),
                _ => None,
            }
        } else {
            None
        }
    }

    /// Reads the `@`-annotations that follow a field's type.
    fn parse_annotations(&mut self, field: Field) -> (r: Option<Field>)
        requires
            old(self).wf(),
        ensures
            final(self).wf(),
            final(self).toks() == old(self).toks(),
            final(self).lexical_errors() == old(self).lexical_errors(),
            (match r {
                Some(f) => Some(f@),
                None => None,
            }, final(self).pos()) == parse_annotations(old(self).toks(), old(self).pos(), field@),
    {
        let ghost t = self.toks();
        let ghost first = self.pos();
        let mut f = field;
        while self.is_at_sign(self.position)
            invariant
                self.wf(),
                self.toks() == t,
                self.lexical_errors() == old(self).lexical_errors(),
                t == old(self).toks(),
                first == old(self).pos(),
                parse_annotations(t, self.pos(), f@) == parse_annotations(t, first, field@),
            decreases self.tokens.len() - self.position,
        {
            let j = self.position;
            if self.identifier_is(j + 1, "id") {
                f.is_primary_key = true;
                self.position = j + 2;
            } else if self.identifier_is(j + 1, "references") {
                if !self.is_open_paren(j + 2) {
                    self.position = j + 2;
                    return None;
                }
                let model = match self.identifier(j + 3) {
                    Some(m) => m,
                    None => {
                        self.position = j + 2;
                        return None;
                    },
                };
                if !self.is_comma(j + 4) {
                    self.position = j + 2;
                    return None;
                }
                let model_field = match self.identifier(j + 5) {
                    Some(m) => m,
                    None => {
                        self.position = j + 2;
                        return None;
                    },
                };
                if !self.is_close_paren(j + 6) {
                    self.position = j + 6;
                    return None;
                }
                f.references = Some((model, model_field));
                self.position = j + 7;
            } else {
                self.position = j + 1;
            }
        }
        Some(f)
    }

    /// Reads one field: a name, a type keyword, an optional `?`, then annotations.
    pub fn parse_field(&mut self) -> (r: Option<Field>)
        requires
            old(self).wf(),
        ensures
            final(self).wf(),
            final(self).toks() == old(self).toks(),
            final(self).lexical_errors() == old(self).lexical_errors(),
            (match r {
                Some(f) => Some(f@),
                None => None,
            }, final(self).pos()) == parse_field(old(self).toks(), old(self).pos()),
    {
        let i = self.position;
        let name = match self.identifier(i) {
            Some(n) => n,
            None => {
                return None;
            },
        };
        self.position = i + 1;
        let keyword = match self.type_keyword(i + 1) {
            Some(t) => t,
            None => {
                return None;
            },
        };
        let field_type = match BasicType::from_str(keyword.as_str()) {
            Some(t) => t,
            None => {
                return None;
            },
        };
        let is_nullable = self.is_question_mark(i + 2);
        self.position = if is_nullable {
            i + 3
        } else {
            i + 2
        };
        let field = Field {
            name,
            field_type,
            is_nullable,
            is_primary_key: false,
            is_foreign_key: false,
            references: None,
        };
        self.parse_annotations(field)
    }

    /// Reads one model: `model`, a name, `{`, then fields until one cannot be read.
    pub fn parse_model(&mut self) -> (r: Option<Model>)
        requires
            old(self).wf(),
        ensures
            final(self).wf(),
            final(self).toks() == old(self).toks(),
            final(self).lexical_errors() == old(self).lexical_errors(),
            (match r {
                Some(m) => Some(m@),
                None => None,
            }, final(self).pos()) == parse_model(old(self).toks(), old(self).pos()),
    {
        let ghost t = self.toks();
        let i = self.position;
        if !self.is_model(i) {
            return None;
        }
        self.position = i + 1;
        let name = match self.identifier(i + 1) {
            Some(n) => n,
            None => {
                return None;
            },
        };
        self.position = i + 2;
        if !self.is_open_brace(i + 2) {
            return None;
        }
        self.position = i + 3;
        let mut fields: Vec<Field> = Vec::new();
        loop
            invariant_except_break
                fields@.map_values(|f: Field| f@) + parse_fields(t, self.pos()).0 == parse_fields(
                    t,
                    i + 3,
                ).0,
                parse_fields(t, self.pos()).1 == parse_fields(t, i + 3).1,
            invariant
                self.wf(),
                self.toks() == t,
                t == old(self).toks(),
                self.lexical_errors() == old(self).lexical_errors(),
                i + 3 <= self.position,
            ensures
                self.wf(),
                self.toks() == t,
                self.lexical_errors() == old(self).lexical_errors(),
                fields@.map_values(|f: Field| f@) == parse_fields(t, i + 3).0,
                self.pos() == parse_fields(t, i + 3).1,
            decreases self.tokens.len() - self.position,
        {
            if self.position >= self.tokens.len() {
                proof {
                    assert(fields@.map_values(|f: Field| f@) + parse_fields(t, self.pos()).0
                        =~= fields@.map_values(|f: Field| f@));
                }
                break ;
            }
            let ghost p = self.pos();
            proof {
                lemma_parse_field_advances(t, p);
            }
            match self.parse_field() {
                Some(f) => {
                    let ghost before = fields@;
                    fields.push(f);
                    proof {
                        assert(fields@.map_values(|f: Field| f@) =~= before.map_values(
                            |f: Field| f@,
                        ).push(f@));
                        assert(fields@.map_values(|f: Field| f@) + parse_fields(t, self.pos()).0
                            =~= before.map_values(|f: Field| f@) + parse_fields(t, p).0);
                    }
                },
                None => {
                    proof {
                        assert(fields@.map_values(|f: Field| f@) + parse_fields(t, p).0
                            =~= fields@.map_values(|f: Field| f@));
                    }
                    break ;
                },
            }
        }
        Some(Model { name, fields })
    }
}

/// Reads the models of a schema text, stopping at the first one that cannot be
/// read; malformed text gives a shorter or empty list, never an error.
pub fn parse(ddl: String) -> (models: Vec<Model>)
    ensures
        model_views(models@) == ddl_parse(ddl@),
{
    let letters = letters_of(ddl.as_str());
    parse_with_letters(ddl, letters)
}

/// Reads the models of a schema text where `letters` marks which characters
/// are letters, as `parse` does with the marks of `char::is_alphabetic`.
pub fn parse_with_letters(ddl: String, letters: Vec<bool>) -> (models: Vec<Model>)
    requires
        letters@.len() == ddl@.len(),
    ensures
        model_views(models@) == parse_models(lex_from(ddl@, letters@, 0), 0),
{
    let ghost s = ddl@;
    let ghost t = lex_from(ddl@, letters@, 0);
    let lexer = DDLLexer::with_letters(ddl, letters);
    let mut parser = DDLParser::new(lexer);
    let mut models: Vec<Model> = Vec::new();
    loop
        invariant_except_break
            model_views(models@) + parse_models(t, parser.pos()) == parse_models(t, 0),
        invariant
            parser.wf(),
            parser.toks() == t,
        ensures
            model_views(models@) == parse_models(t, 0),
        decreases t.len() - parser.pos(),
    {
        let ghost p = parser.pos();
        proof {
            lemma_parse_model_advances(t, p);
        }
        match parser.parse_model() {
            Some(m) => {
                let ghost before = models@;
                models.push(m);
                proof {
                    assert(model_views(models@) =~= model_views(before).push(m@));
                    assert(model_views(models@) + parse_models(t, parser.pos()) =~= model_views(
                        before,
                    ) + parse_models(t, p));
                }
            },
            None => {
                proof {
                    assert(model_views(models@) + parse_models(t, p) =~= model_views(models@));
                }
                break ;
            },
        }
    }
    models
}

/// How many of the fields are marked as the primary key.
pub open spec fn primary_key_count(fs: Seq<FieldV>) -> nat
    decreases fs.len(),
{
    if fs.len() == 0 {
        0
    } else {
        primary_key_count(fs.drop_last()) + if fs.last().is_primary_key {
            1nat
        } else {
            0nat
        }
    }
}

/// The message for a model without exactly one primary key.
pub open spec fn primary_key_message(name: Seq<char>, count: nat) -> Seq<char> {
    "Model "@ + name + " has "@ + decimal(count) + " primary keys, expected 1"@
}

/// One message for each model, in order, that has no primary key or more than one.
pub open spec fn primary_key_errors(ms: Seq<ModelV>) -> Seq<Seq<char>>
    decreases ms.len(),
{
    if ms.len() == 0 {
        seq![]
    } else if primary_key_count(ms.last().fields) != 1 {
        primary_key_errors(ms.drop_last()).push(
            primary_key_message(ms.last().name, primary_key_count(ms.last().fields)),
        )
    } else {
        primary_key_errors(ms.drop_last())
    }
}

/// The message for a model whose name an earlier model already took.
pub open spec fn duplicate_name_message(name: Seq<char>) -> Seq<char> {
    "Model "@ + name + " is declared more than once"@
}

/// Whether a model before index `i` has the name of model `i`.
pub open spec fn named_before(ms: Seq<ModelV>, i: int) -> bool {
    exists|j: int| 0 <= j < i && #[trigger] ms[j].name == ms[i].name
}

/// One message for each model, in order, whose name an earlier model took.
pub open spec fn duplicate_name_errors(ms: Seq<ModelV>) -> Seq<Seq<char>>
    decreases ms.len(),
{
    if ms.len() == 0 {
        seq![]
    } else if named_before(ms, ms.len() - 1) {
        duplicate_name_errors(ms.drop_last()).push(duplicate_name_message(ms.last().name))
    } else {
        duplicate_name_errors(ms.drop_last())
    }
}

/// The messages of every structural check on the models, check after check:
/// one primary key per model, then no two models of one name. Not checked yet:
/// duplicate field names within a model, that a `@references` target model and
/// field exist and agree in type and key, and that primary keys are not nullable.
pub open spec fn ddl_analysis(ms: Seq<ModelV>) -> Seq<Seq<char>> {
    primary_key_errors(ms) + duplicate_name_errors(ms)
}

/// Runs the structural checks over parsed models.
pub struct DDLAnalyzer<'a> {
    models: &'a Vec<Model>,
}

impl<'a> DDLAnalyzer<'a> {
    /// The models under analysis.
    pub closed spec fn subject(&self) -> Seq<ModelV> {
        model_views(self.models@)
    }

    pub fn new(models: &'a Vec<Model>) -> (r: DDLAnalyzer<'a>)
        ensures
            r.subject() == model_views(models@),
    {
        DDLAnalyzer { models }
    }

    /// The messages of all checks, in order.
    pub fn analyze(&self) -> (errors: Vec<String>)
        ensures
            texts(errors@) == ddl_analysis(self.subject()),
    {
        let mut errors = self.every_model_has_primary_key();
        let mut more = self.no_duplicate_model_names();
        let ghost first_view = errors@;
        let ghost more_view = more@;
        errors.append(&mut more);
        assert(texts(errors@) =~= texts(first_view) + texts(more_view));
        errors
    }

    /// Each model must have exactly one primary-key field.
    pub fn every_model_has_primary_key(&self) -> (errors: Vec<String>)
        ensures
            texts(errors@) == primary_key_errors(self.subject()),
    {
        let mut errors: Vec<String> = Vec::new();
        let n = self.models.len();
        let mut i: usize = 0;
        while i < n
            invariant
                i <= n,
                n == self.models@.len(),
                texts(errors@) == primary_key_errors(self.subject().subrange(0, i as int)),
            decreases n - i,
        {
            let model = &self.models[i];
            let mut count: usize = 0;
            let mut k: usize = 0;
            let m = model.fields.len();
            while k < m
                invariant
                    k <= m,
                    m == model.fields@.len(),
                    count <= k,
                    count == primary_key_count(model@.fields.subrange(0, k as int)),
                decreases m - k,
            {
                if model.fields[k].is_primary_key {
                    count = count + 1;
                }
                proof {
                    assert(model@.fields.subrange(0, k + 1).drop_last() =~= model@.fields.subrange(
                        0,
                        k as int,
                    ));
                }
                k = k + 1;
            }
            assert(model@.fields.subrange(0, m as int) =~= model@.fields);
            let ghost before = errors@;
            if count != 1 {
                let msg = String::from_str("Model ").concat(model.name.as_str()).concat(
                    " has ",
                ).concat(decimal_text(count).as_str()).concat(" primary keys, expected 1");
                errors.push(msg);
                proof {
                    assert(texts(errors@) =~= texts(before).push(msg@));
                }
            }
            proof {
                assert(self.subject().subrange(0, i + 1).drop_last() =~= self.subject().subrange(
                    0,
                    i as int,
                ));
                assert(self.subject().subrange(0, i + 1).last() == model@);
            }
            i = i + 1;
        }
        assert(self.subject().subrange(0, n as int) =~= self.subject());
        errors
    }

    /// No two models may have the same name.
    pub fn no_duplicate_model_names(&self) -> (errors: Vec<String>)
        ensures
            texts(errors@) == duplicate_name_errors(self.subject()),
    {
        let ghost ms = self.subject();
        let mut errors: Vec<String> = Vec::new();
        let n = self.models.len();
        let mut i: usize = 0;
        while i < n
            invariant
                i <= n,
                n == self.models@.len(),
                ms == self.subject(),
                texts(errors@) == duplicate_name_errors(ms.subrange(0, i as int)),
            decreases n - i,
        {
            let mut seen = false;
            let mut j: usize = 0;
            while j < i
                invariant
                    j <= i < n,
                    n == self.models@.len(),
                    ms == self.subject(),
                    seen == exists|k: int| 0 <= k < j && #[trigger] ms[k].name == ms[i as int].name,
                decreases i - j,
            {
                if same_text(self.models[j].name.as_str(), self.models[i].name.as_str()) {
                    assert(ms[j as int].name == ms[i as int].name);
                    seen = true;
                }
                j = j + 1;
            }
            let ghost sub = ms.subrange(0, i + 1);
            proof {
                assert(sub.drop_last() =~= ms.subrange(0, i as int));
                assert(sub.last() == ms[i as int]);
                if seen {
                    let k = choose|k: int| 0 <= k < i && #[trigger] ms[k].name == ms[i as int].name;
                    assert(sub[k] == ms[k]);
                    assert(named_before(sub, i as int));
                } else {
                    assert forall|k: int| 0 <= k < i implies #[trigger] sub[k].name
                        != sub[i as int].name by {
                        assert(sub[k] == ms[k]);
                    }
                }
            }
            let ghost before = errors@;
            if seen {
                let msg = String::from_str("Model ").concat(self.models[i].name.as_str()).concat(
                    " is declared more than once",
                );
                errors.push(msg);
                proof {
                    assert(texts(errors@) =~= texts(before).push(msg@));
                }
            }
            i = i + 1;
        }
        assert(ms.subrange(0, n as int) =~= ms);
        errors
    }
}

/// The messages of every structural check on the models; admission must
/// refuse the models unless this is empty.
pub fn analyze(models: &Vec<Model>) -> (errors: Vec<String>)
    ensures
        texts(errors@) == ddl_analysis(model_views(models@)),
{
    let analyzer = DDLAnalyzer::new(models);
    analyzer.analyze()
}

/// Lexing is deterministic: two lexers made by `DDLLexer::new` over the same
/// schema text classify every character alike, yield the same tokens and record
/// the same rejected characters.
pub proof fn lemma_lexing_deterministic(a: DDLLexer, b: DDLLexer)
    requires
        a.wf(),
        b.wf(),
        a.text() == b.text(),
        a.letters() == letter_flags(a.text()),
        b.letters() == letter_flags(b.text()),
        a.pos() == b.pos(),
    ensures
        a.letters() == b.letters(),
        lex_from(a.text(), a.letters(), a.pos()) == lex_from(b.text(), b.letters(), b.pos()),
        invalid_messages(a.text(), a.letters(), a.text().len() as int) == invalid_messages(
            b.text(),
            b.letters(),
            b.text().len() as int,
        ),
{
}

/// A model none of whose fields is a primary key gets exactly one message:
/// that it has 0 primary keys.
pub proof fn lemma_no_primary_key(m: ModelV)
    requires
        forall|i: int| 0 <= i < m.fields.len() ==> !(#[trigger] m.fields[i]).is_primary_key,
    ensures
        ddl_analysis(seq![m]) == seq!["Model "@ + m.name + " has 0 primary keys, expected 1"@],
{
    lemma_primary_key_count_none(m.fields);
    reveal_strlit("0");
    reveal_strlit(" has ");
    reveal_strlit(" primary keys, expected 1");
    reveal_strlit(" has 0 primary keys, expected 1");
    assert(seq![m].drop_last() =~= Seq::<ModelV>::empty());
    assert(seq![m].last() == m);
    assert(primary_key_errors(Seq::<ModelV>::empty()) == Seq::<Seq<char>>::empty());
    assert(primary_key_errors(seq![m]) == primary_key_errors(seq![m].drop_last()).push(
        primary_key_message(m.name, 0),
    ));
    assert(decimal(0) =~= "0"@);
    assert(duplicate_name_errors(seq![m]) == duplicate_name_errors(seq![m].drop_last()));
    assert(duplicate_name_errors(Seq::<ModelV>::empty()) == Seq::<Seq<char>>::empty());
    assert(primary_key_message(m.name, 0) =~= "Model "@ + m.name + " has 0 primary keys, expected 1"@);
}

/// A model with exactly one primary-key field gets no message.
pub proof fn lemma_one_primary_key(m: ModelV, k: int)
    requires
        0 <= k < m.fields.len(),
        m.fields[k].is_primary_key,
        forall|i: int| 0 <= i < m.fields.len() && i != k ==> !(#[trigger] m.fields[i]).is_primary_key,
    ensures
        ddl_analysis(seq![m]) == Seq::<Seq<char>>::empty(),
{
    lemma_primary_key_count_one(m.fields, k);
    assert(seq![m].drop_last() =~= Seq::<ModelV>::empty());
    assert(seq![m].last() == m);
    assert(primary_key_errors(Seq::<ModelV>::empty()) == Seq::<Seq<char>>::empty());
    assert(primary_key_errors(seq![m]) == primary_key_errors(seq![m].drop_last()));
    assert(duplicate_name_errors(seq![m]) == duplicate_name_errors(seq![m].drop_last()));
    assert(duplicate_name_errors(Seq::<ModelV>::empty()) == Seq::<Seq<char>>::empty());
    assert(ddl_analysis(seq![m]) =~= Seq::<Seq<char>>::empty());
}

/// No field marked as a primary key: the count is zero.
pub proof fn lemma_primary_key_count_none(fs: Seq<FieldV>)
    requires
        forall|i: int| 0 <= i < fs.len() ==> !(#[trigger] fs[i]).is_primary_key,
    ensures
        primary_key_count(fs) == 0,
    decreases fs.len(),
{
    if fs.len() > 0 {
        lemma_primary_key_count_none(fs.drop_last());
        assert(!fs[fs.len() - 1].is_primary_key);
    }
}

/// Exactly the field at `k` marked as a primary key: the count is one.
pub proof fn lemma_primary_key_count_one(fs: Seq<FieldV>, k: int)
    requires
        0 <= k < fs.len(),
        fs[k].is_primary_key,
        forall|i: int| 0 <= i < fs.len() && i != k ==> !(#[trigger] fs[i]).is_primary_key,
    ensures
        primary_key_count(fs) == 1,
    decreases fs.len(),
{
    if k == fs.len() - 1 {
        lemma_primary_key_count_none(fs.drop_last());
    } else {
        lemma_primary_key_count_one(fs.drop_last(), k);
        assert(!fs[fs.len() - 1].is_primary_key);
    }
}

} // verus!
