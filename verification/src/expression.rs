//! The `remove` expressions: their tokens, their grammar, and when a torrent meets one.

use crate::number::{
    decimal, is_decimal, is_digit, law_decimals_have_one_point, parse_decimal, Number,
};
use crate::text::{chars_of, lower, same_text, string_of, to_lower};
use vstd::prelude::*;

verus! {

/// What a relation can ask about.
#[derive(Clone, Copy, PartialEq, Eq, Structural, Debug)]
pub enum Parameter {
    AverageDownloadSpeed,
    AverageUploadSpeed,
    ConnectedLeecher,
    ConnectedSeeder,
    CreateTime,
    Download,
    DownloadSpeed,
    DownloadingTime,
    LastActivity,
    Leecher,
    Progress,
    Ratio,
    Seeder,
    SeedingTime,
    Size,
    Upload,
    UploadRatio,
    UploadSpeed,
}

/// How a relation compares.
#[derive(Clone, Copy, PartialEq, Eq, Structural, Debug)]
pub enum Comparer {
    Lt,
    Gt,
    Eq,
}

/// What a relation compares with.
pub enum Literal {
    Number(Number),
    Text(String),
}

/// A `remove` expression.
pub enum Expression {
    Relation { parameter: Parameter, comparer: Comparer, value: Literal },
    And(Box<Expression>, Box<Expression>),
    Or(Box<Expression>, Box<Expression>),
}

/// A token of a `remove` expression.
pub enum Token {
    Identifier(String),
    Number(Number),
    Lt,
    Gt,
    Eq,
    And,
    Or,
    LParen,
    RParen,
}

/// Why a text is no `remove` expression.
pub enum ExpressionError {
    InvalidNumber(String),
    IllegalCharacter(char),
    UnsupportedParameter(String),
    ExpectedCondition(Token),
    ExpectedComparison(Token),
    ExpectedValue(Token),
    ExpectedClosing,
    UnexpectedEnd,
    TrailingTokens,
}

/// What a literal says.
pub enum LiteralView {
    Number(Number),
    Text(Seq<char>),
}

/// What an expression says.
pub enum ExpressionView {
    Relation { parameter: Parameter, comparer: Comparer, value: LiteralView },
    And(Box<ExpressionView>, Box<ExpressionView>),
    Or(Box<ExpressionView>, Box<ExpressionView>),
}

/// What a token says.
pub enum TokenView {
    Identifier(Seq<char>),
    Number(Number),
    Lt,
    Gt,
    Eq,
    And,
    Or,
    LParen,
    RParen,
}

/// What an error says.
pub enum ErrorView {
    InvalidNumber(Seq<char>),
    IllegalCharacter(char),
    UnsupportedParameter(Seq<char>),
    ExpectedCondition(TokenView),
    ExpectedComparison(TokenView),
    ExpectedValue(TokenView),
    ExpectedClosing,
    UnexpectedEnd,
    TrailingTokens,
}

impl View for Literal {
    type V = LiteralView;

    open spec fn view(&self) -> LiteralView {
        match self {
            Literal::Number(number) => LiteralView::Number(*number),
            Literal::Text(text) => LiteralView::Text(text@),
        }
    }
}

/// What an expression says.
pub open spec fn expression_view(expression: Expression) -> ExpressionView
    decreases expression,
{
    match expression {
        Expression::Relation { parameter, comparer, value } => ExpressionView::Relation {
            parameter,
            comparer,
            value: value@,
        },
        Expression::And(left, right) => ExpressionView::And(
            Box::new(expression_view(*left)),
            Box::new(expression_view(*right)),
        ),
        Expression::Or(left, right) => ExpressionView::Or(
            Box::new(expression_view(*left)),
            Box::new(expression_view(*right)),
        ),
    }
}

impl View for Token {
    type V = TokenView;

    open spec fn view(&self) -> TokenView {
        match self {
            Token::Identifier(text) => TokenView::Identifier(text@),
            Token::Number(number) => TokenView::Number(*number),
            Token::Lt => TokenView::Lt,
            Token::Gt => TokenView::Gt,
            Token::Eq => TokenView::Eq,
            Token::And => TokenView::And,
            Token::Or => TokenView::Or,
            Token::LParen => TokenView::LParen,
            Token::RParen => TokenView::RParen,
        }
    }
}

impl View for ExpressionError {
    type V = ErrorView;

    open spec fn view(&self) -> ErrorView {
        match self {
            ExpressionError::InvalidNumber(text) => ErrorView::InvalidNumber(text@),
            ExpressionError::IllegalCharacter(ch) => ErrorView::IllegalCharacter(*ch),
            ExpressionError::UnsupportedParameter(text) => ErrorView::UnsupportedParameter(text@),
            ExpressionError::ExpectedCondition(token) => ErrorView::ExpectedCondition(token@),
            ExpressionError::ExpectedComparison(token) => ErrorView::ExpectedComparison(token@),
            ExpressionError::ExpectedValue(token) => ErrorView::ExpectedValue(token@),
            ExpressionError::ExpectedClosing => ErrorView::ExpectedClosing,
            ExpressionError::UnexpectedEnd => ErrorView::UnexpectedEnd,
            ExpressionError::TrailingTokens => ErrorView::TrailingTokens,
        }
    }
}

/// What a list of tokens says.
pub open spec fn token_views(tokens: Seq<Token>) -> Seq<TokenView> {
    Seq::new(tokens.len(), |i: int| tokens[i]@)
}

/// Whether a character can continue a number.
pub open spec fn is_number_char(ch: char) -> bool {
    is_digit(ch) || ch == '.'
}

/// Whether a character is an ASCII letter.
pub open spec fn is_letter(ch: char) -> bool {
    'a' <= ch <= 'z' || 'A' <= ch <= 'Z'
}

/// Whether a character can continue a word.
pub open spec fn is_word_char(ch: char) -> bool {
    is_letter(ch) || is_digit(ch) || ch == '_' || ch == '-'
}

/// How many characters at the start of a text can continue a number.
pub open spec fn number_len(text: Seq<char>) -> nat
    decreases text.len(),
{
    if text.len() > 0 && is_number_char(text[0]) {
        1 + number_len(text.skip(1))
    } else {
        0
    }
}

/// How many characters at the start of a text can continue a word.
pub open spec fn word_len(text: Seq<char>) -> nat
    decreases text.len(),
{
    if text.len() > 0 && is_word_char(text[0]) {
        1 + word_len(text.skip(1))
    } else {
        0
    }
}

/// A number is no longer than its text.
pub proof fn lemma_number_len(text: Seq<char>)
    ensures
        number_len(text) <= text.len(),
    decreases text.len(),
{
    if text.len() > 0 {
        lemma_number_len(text.skip(1));
    }
}

/// A word is no longer than its text.
pub proof fn lemma_word_len(text: Seq<char>)
    ensures
        word_len(text) <= text.len(),
    decreases text.len(),
{
    if text.len() > 0 {
        lemma_word_len(text.skip(1));
    }
}

/// The token that a word is, whatever the case of its letters.
pub open spec fn word_token(word: Seq<char>) -> TokenView {
    let word = lower(word);
    if word == "and"@ {
        TokenView::And
    } else if word == "or"@ {
        TokenView::Or
    } else {
        TokenView::Identifier(word)
    }
}

/// The token that a character is by itself.
pub open spec fn sign_token(ch: char) -> Option<TokenView> {
    if ch == '(' {
        Some(TokenView::LParen)
    } else if ch == ')' {
        Some(TokenView::RParen)
    } else if ch == '<' {
        Some(TokenView::Lt)
    } else if ch == '>' {
        Some(TokenView::Gt)
    } else if ch == '=' {
        Some(TokenView::Eq)
    } else {
        None
    }
}

/// Tokens followed by what comes of the rest of a text.
pub open spec fn followed(
    tokens: Seq<TokenView>,
    rest: Result<Seq<TokenView>, ErrorView>,
) -> Result<Seq<TokenView>, ErrorView> {
    match rest {
        Ok(more) => Ok(tokens + more),
        Err(error) => Err(error),
    }
}

/// The tokens of a text: numbers and words as long as they can be, signs, and blanks and tabs
/// between them.
pub open spec fn lexed(text: Seq<char>) -> Result<Seq<TokenView>, ErrorView>
    decreases text.len(),
{
    if text.len() == 0 {
        Ok(Seq::empty())
    } else if text[0] == ' ' || text[0] == '\t' {
        lexed(text.skip(1))
    } else if sign_token(text[0]) is Some {
        followed(seq![sign_token(text[0])->0], lexed(text.skip(1)))
    } else if is_digit(text[0]) {
        let len = 1 + number_len(text.skip(1));
        let number = text.take(len as int);
        proof {
            lemma_number_len(text.skip(1));
        }
        if !is_decimal(number) {
            Err(ErrorView::InvalidNumber(number))
        } else {
            followed(seq![TokenView::Number(decimal(number))], lexed(text.skip(len as int)))
        }
    } else if is_letter(text[0]) {
        let len = 1 + word_len(text.skip(1));
        proof {
            lemma_word_len(text.skip(1));
        }
        followed(seq![word_token(text.take(len as int))], lexed(text.skip(len as int)))
    } else {
        Err(ErrorView::IllegalCharacter(text[0]))
    }
}

fn number_char(ch: char) -> (fits: bool)
    ensures
        fits == is_number_char(ch),
{
    ('0' <= ch && ch <= '9') || ch == '.'
}

fn letter(ch: char) -> (fits: bool)
    ensures
        fits == is_letter(ch),
{
    ('a' <= ch && ch <= 'z') || ('A' <= ch && ch <= 'Z')
}

fn word_char(ch: char) -> (fits: bool)
    ensures
        fits == is_word_char(ch),
{
    letter(ch) || ('0' <= ch && ch <= '9') || ch == '_' || ch == '-'
}

fn number_end(chars: &Vec<char>, start: usize) -> (end: usize)
    requires
        start <= chars@.len(),
    ensures
        end == start + number_len(chars@.skip(start as int)),
        start <= end <= chars@.len(),
        forall|i: int| start <= i < end ==> is_number_char(#[trigger] chars@[i]),
{
    let mut end: usize = start;
    while end < chars.len() && number_char(chars[end])
        invariant
            start <= end <= chars@.len(),
            number_len(chars@.skip(start as int)) == (end - start) + number_len(
                chars@.skip(end as int),
            ),
            forall|i: int| start <= i < end ==> is_number_char(#[trigger] chars@[i]),
        decreases chars.len() - end,
    {
        assert(chars@.skip(end as int).skip(1) =~= chars@.skip(end + 1));
        end = end + 1;
    }
    end
}

fn word_end(chars: &Vec<char>, start: usize) -> (end: usize)
    requires
        start <= chars@.len(),
    ensures
        end == start + word_len(chars@.skip(start as int)),
        start <= end <= chars@.len(),
{
    let mut end: usize = start;
    while end < chars.len() && word_char(chars[end])
        invariant
            start <= end <= chars@.len(),
            word_len(chars@.skip(start as int)) == (end - start) + word_len(
                chars@.skip(end as int),
            ),
        decreases chars.len() - end,
    {
        assert(chars@.skip(end as int).skip(1) =~= chars@.skip(end + 1));
        end = end + 1;
    }
    end
}

fn piece(chars: &Vec<char>, start: usize, end: usize) -> (piece: Vec<char>)
    requires
        start <= end <= chars@.len(),
    ensures
        piece@ == chars@.subrange(start as int, end as int),
{
    let mut piece: Vec<char> = Vec::new();
    let mut i: usize = start;
    while i < end
        invariant
            start <= i <= end <= chars@.len(),
            piece@ == chars@.subrange(start as int, i as int),
        decreases end - i,
    {
        piece.push(chars[i]);
        assert(chars@.subrange(start as int, i + 1) =~= chars@.subrange(
            start as int,
            i as int,
        ).push(chars@[i as int]));
        i = i + 1;
    }
    piece
}

fn sign(ch: char) -> (token: Option<Token>)
    ensures
        match token {
            Some(token) => sign_token(ch) == Some(token@),
            None => sign_token(ch) is None,
        },
{
    if ch == '(' {
        Some(Token::LParen)
    } else if ch == ')' {
        Some(Token::RParen)
    } else if ch == '<' {
        Some(Token::Lt)
    } else if ch == '>' {
        Some(Token::Gt)
    } else if ch == '=' {
        Some(Token::Eq)
    } else {
        None
    }
}

fn word(chars: &Vec<char>) -> (token: Token)
    ensures
        token@ == word_token(chars@),
{
    let identifier = to_lower(string_of(chars).as_str());
    if same_text(identifier.as_str(), "and") {
        Token::And
    } else if same_text(identifier.as_str(), "or") {
        Token::Or
    } else {
        Token::Identifier(identifier)
    }
}

/// The tokens of a text, or what is wrong with the first part of it that is none.
pub fn tokenize(input: &str) -> (tokens: Result<Vec<Token>, ExpressionError>)
    ensures
        match tokens {
            Ok(tokens) => lexed(input@) == Ok::<Seq<TokenView>, ErrorView>(token_views(tokens@)),
            Err(error) => lexed(input@) == Err::<Seq<TokenView>, ErrorView>(error@),
        },
{
    let chars = chars_of(input);
    let mut tokens: Vec<Token> = Vec::new();
    let mut at: usize = 0;
    proof {
        assert(chars@.skip(0) =~= chars@);
        assert(token_views(tokens@) =~= Seq::<TokenView>::empty());
        lemma_followed_nothing(lexed(input@));
    }
    while at < chars.len()
        invariant
            at <= chars@.len(),
            chars@ == input@,
            lexed(input@) == followed(token_views(tokens@), lexed(chars@.skip(at as int))),
        decreases chars.len() - at,
    {
        let ch: char = chars[at];
        let ghost rest = chars@.skip(at as int);
        let ghost before = tokens@;
        assert(rest.skip(1) =~= chars@.skip(at + 1));
        if ch == ' ' || ch == '\t' {
            at = at + 1;
        } else if let Some(token) = sign(ch) {
            tokens.push(token);
            at = at + 1;
            proof {
                assert(token_views(tokens@) =~= token_views(before) + seq![token@]);
                lemma_followed_twice(token_views(before), token@, lexed(chars@.skip(at as int)));
            }
        } else if '0' <= ch && ch <= '9' {
            let end = number_end(&chars, at + 1);
            let digits = piece(&chars, at, end);
            assert(digits@ =~= rest.take(end - at));
            match parse_decimal(&digits) {
                None => {
                    return Err(ExpressionError::InvalidNumber(string_of(&digits)));
                },
                Some(number) => {
                    tokens.push(Token::Number(number));
                    proof {
                        assert(rest.skip(end - at) =~= chars@.skip(end as int));
                        assert(token_views(tokens@) =~= token_views(before)
                            + seq![TokenView::Number(number)]);
                        lemma_followed_twice(
                            token_views(before),
                            TokenView::Number(number),
                            lexed(chars@.skip(end as int)),
                        );
                    }
                    at = end;
                },
            }
        } else if letter(ch) {
            let end = word_end(&chars, at + 1);
            let letters = piece(&chars, at, end);
            assert(letters@ =~= rest.take(end - at));
            let token = word(&letters);
            tokens.push(token);
            proof {
                assert(rest.skip(end - at) =~= chars@.skip(end as int));
                assert(token_views(tokens@) =~= token_views(before) + seq![token@]);
                lemma_followed_twice(token_views(before), token@, lexed(chars@.skip(end as int)));
            }
            at = end;
        } else {
            return Err(ExpressionError::IllegalCharacter(ch));
        }
    }
    assert(token_views(tokens@) + Seq::<TokenView>::empty() =~= token_views(tokens@));
    Ok(tokens)
}

proof fn lemma_followed_nothing(rest: Result<Seq<TokenView>, ErrorView>)
    ensures
        followed(Seq::empty(), rest) == rest,
{
    if let Ok(more) = rest {
        assert(Seq::<TokenView>::empty() + more =~= more);
    }
}

proof fn lemma_followed_twice(
    tokens: Seq<TokenView>,
    token: TokenView,
    rest: Result<Seq<TokenView>, ErrorView>,
)
    ensures
        followed(tokens, followed(seq![token], rest)) == followed(tokens + seq![token], rest),
{
    if let Ok(more) = rest {
        assert(tokens + (seq![token] + more) =~= tokens + seq![token] + more);
    }
}

/// What the name of a condition asks about.
pub open spec fn parameter_of(name: Seq<char>) -> Option<Parameter> {
    if name == "average_downloadspeed"@ {
        Some(Parameter::AverageDownloadSpeed)
    } else if name == "average_uploadspeed"@ {
        Some(Parameter::AverageUploadSpeed)
    } else if name == "connected_leecher"@ {
        Some(Parameter::ConnectedLeecher)
    } else if name == "connected_seeder"@ {
        Some(Parameter::ConnectedSeeder)
    } else if name == "create_time"@ {
        Some(Parameter::CreateTime)
    } else if name == "download"@ {
        Some(Parameter::Download)
    } else if name == "download_speed"@ {
        Some(Parameter::DownloadSpeed)
    } else if name == "downloading_time"@ {
        Some(Parameter::DownloadingTime)
    } else if name == "last_activity"@ {
        Some(Parameter::LastActivity)
    } else if name == "leecher"@ {
        Some(Parameter::Leecher)
    } else if name == "progress"@ {
        Some(Parameter::Progress)
    } else if name == "ratio"@ {
        Some(Parameter::Ratio)
    } else if name == "seeder"@ {
        Some(Parameter::Seeder)
    } else if name == "seeding_time"@ {
        Some(Parameter::SeedingTime)
    } else if name == "size"@ {
        Some(Parameter::Size)
    } else if name == "upload"@ {
        Some(Parameter::Upload)
    } else if name == "upload_ratio"@ {
        Some(Parameter::UploadRatio)
    } else if name == "upload_speed"@ {
        Some(Parameter::UploadSpeed)
    } else {
        None
    }
}

/// What the name of a condition asks about.
pub fn parse_parameter(identifier: &str) -> (parameter: Option<Parameter>)
    ensures
        parameter == parameter_of(identifier@),
{
    if same_text(identifier, "average_downloadspeed") {
        Some(Parameter::AverageDownloadSpeed)
    } else if same_text(identifier, "average_uploadspeed") {
        Some(Parameter::AverageUploadSpeed)
    } else if same_text(identifier, "connected_leecher") {
        Some(Parameter::ConnectedLeecher)
    } else if same_text(identifier, "connected_seeder") {
        Some(Parameter::ConnectedSeeder)
    } else if same_text(identifier, "create_time") {
        Some(Parameter::CreateTime)
    } else if same_text(identifier, "download") {
        Some(Parameter::Download)
    } else if same_text(identifier, "download_speed") {
        Some(Parameter::DownloadSpeed)
    } else if same_text(identifier, "downloading_time") {
        Some(Parameter::DownloadingTime)
    } else if same_text(identifier, "last_activity") {
        Some(Parameter::LastActivity)
    } else if same_text(identifier, "leecher") {
        Some(Parameter::Leecher)
    } else if same_text(identifier, "progress") {
        Some(Parameter::Progress)
    } else if same_text(identifier, "ratio") {
        Some(Parameter::Ratio)
    } else if same_text(identifier, "seeder") {
        Some(Parameter::Seeder)
    } else if same_text(identifier, "seeding_time") {
        Some(Parameter::SeedingTime)
    } else if same_text(identifier, "size") {
        Some(Parameter::Size)
    } else if same_text(identifier, "upload") {
        Some(Parameter::Upload)
    } else if same_text(identifier, "upload_ratio") {
        Some(Parameter::UploadRatio)
    } else if same_text(identifier, "upload_speed") {
        Some(Parameter::UploadSpeed)
    } else {
        None
    }
}

/// What a token compares by.
pub open spec fn comparer_of(token: TokenView) -> Option<Comparer> {
    match token {
        TokenView::Lt => Some(Comparer::Lt),
        TokenView::Gt => Some(Comparer::Gt),
        TokenView::Eq => Some(Comparer::Eq),
        _ => None,
    }
}

/// What a token stands for as a value.
pub open spec fn literal_of(token: TokenView) -> Option<LiteralView> {
    match token {
        TokenView::Number(number) => Some(LiteralView::Number(number)),
        TokenView::Identifier(text) => Some(LiteralView::Text(text)),
        _ => None,
    }
}

/// An expression that starts at a position, and the position behind it.
pub type Parsed = Result<(ExpressionView, int), ErrorView>;

/// The relation that starts at a position: a condition, a comparison and a value.
pub open spec fn parsed_relation(tokens: Seq<TokenView>, at: int) -> Parsed {
    if at >= tokens.len() {
        Err(ErrorView::UnexpectedEnd)
    } else if tokens[at] !is Identifier {
        Err(ErrorView::ExpectedCondition(tokens[at]))
    } else if parameter_of(tokens[at]->Identifier_0) is None {
        Err(ErrorView::UnsupportedParameter(tokens[at]->Identifier_0))
    } else if at + 1 >= tokens.len() {
        Err(ErrorView::UnexpectedEnd)
    } else if comparer_of(tokens[at + 1]) is None {
        Err(ErrorView::ExpectedComparison(tokens[at + 1]))
    } else if at + 2 >= tokens.len() {
        Err(ErrorView::UnexpectedEnd)
    } else if literal_of(tokens[at + 2]) is None {
        Err(ErrorView::ExpectedValue(tokens[at + 2]))
    } else {
        Ok(
            (
                ExpressionView::Relation {
                    parameter: parameter_of(tokens[at]->Identifier_0)->0,
                    comparer: comparer_of(tokens[at + 1])->0,
                    value: literal_of(tokens[at + 2])->0,
                },
                at + 3,
            ),
        )
    }
}

/// The relation, or the expression in parentheses, that starts at a position.
pub open spec fn parsed_primary(tokens: Seq<TokenView>, at: int) -> Parsed
    decreases tokens.len() - at, 0nat,
{
    if at < tokens.len() && tokens[at] is LParen {
        match parsed_expression(tokens, at + 1) {
            Err(error) => Err(error),
            Ok((expression, end)) => if end < tokens.len() && tokens[end] is RParen {
                Ok((expression, end + 1))
            } else {
                Err(ErrorView::ExpectedClosing)
            },
        }
    } else {
        parsed_relation(tokens, at)
    }
}

/// The expression that starts at a position.
pub open spec fn parsed_expression(tokens: Seq<TokenView>, at: int) -> Parsed
    decreases tokens.len() - at, 2nat,
{
    match parsed_primary(tokens, at) {
        Err(error) => Err(error),
        Ok((first, end)) => if at < end <= tokens.len() {
            parsed_rest(tokens, first, end)
        } else {
            Ok((first, end))
        },
    }
}

/// The expression that starts with one which is read already and goes on at a position.
pub open spec fn parsed_rest(tokens: Seq<TokenView>, left: ExpressionView, at: int) -> Parsed
    decreases tokens.len() - at, 1nat,
{
    if at < tokens.len() && (tokens[at] is And || tokens[at] is Or) {
        match parsed_primary(tokens, at + 1) {
            Err(error) => Err(error),
            Ok((right, end)) => {
                let both = if tokens[at] is And {
                    ExpressionView::And(Box::new(left), Box::new(right))
                } else {
                    ExpressionView::Or(Box::new(left), Box::new(right))
                };
                if at < end <= tokens.len() {
                    parsed_rest(tokens, both, end)
                } else {
                    Ok((both, end))
                }
            },
        }
    } else {
        Ok((left, at))
    }
}

/// The expression that a text is.
pub open spec fn expression_of(text: Seq<char>) -> Result<ExpressionView, ErrorView> {
    match lexed(text) {
        Err(error) => Err(error),
        Ok(tokens) => match parsed_expression(tokens, 0) {
            Err(error) => Err(error),
            Ok((expression, end)) => if end != tokens.len() {
                Err(ErrorView::TrailingTokens)
            } else {
                Ok(expression)
            },
        },
    }
}

proof fn lemma_primary_end(tokens: Seq<TokenView>, at: int)
    requires
        0 <= at <= tokens.len(),
    ensures
        parsed_primary(tokens, at) matches Ok((_, end)) ==> at < end <= tokens.len(),
    decreases tokens.len() - at, 0nat,
{
    if at < tokens.len() && tokens[at] is LParen {
        lemma_expression_end(tokens, at + 1);
    }
}

proof fn lemma_expression_end(tokens: Seq<TokenView>, at: int)
    requires
        0 <= at <= tokens.len(),
    ensures
        parsed_expression(tokens, at) matches Ok((_, end)) ==> at < end <= tokens.len(),
    decreases tokens.len() - at, 2nat,
{
    lemma_primary_end(tokens, at);
    if let Ok((first, end)) = parsed_primary(tokens, at) {
        lemma_rest_end(tokens, first, end);
    }
}

proof fn lemma_rest_end(tokens: Seq<TokenView>, left: ExpressionView, at: int)
    requires
        0 <= at <= tokens.len(),
    ensures
        parsed_rest(tokens, left, at) matches Ok((_, end)) ==> at <= end <= tokens.len(),
    decreases tokens.len() - at, 1nat,
{
    if at < tokens.len() && (tokens[at] is And || tokens[at] is Or) {
        lemma_primary_end(tokens, at + 1);
        if let Ok((right, end)) = parsed_primary(tokens, at + 1) {
            let both = if tokens[at] is And {
                ExpressionView::And(Box::new(left), Box::new(right))
            } else {
                ExpressionView::Or(Box::new(left), Box::new(right))
            };
            lemma_rest_end(tokens, both, end);
        }
    }
}

fn copy_token(token: &Token) -> (copy: Token)
    ensures
        copy@ == token@,
{
    match token {
        Token::Identifier(text) => Token::Identifier(text.clone()),
        Token::Number(number) => Token::Number(*number),
        Token::Lt => Token::Lt,
        Token::Gt => Token::Gt,
        Token::Eq => Token::Eq,
        Token::And => Token::And,
        Token::Or => Token::Or,
        Token::LParen => Token::LParen,
        Token::RParen => Token::RParen,
    }
}

/// Whether an outcome is the one that the grammar gives.
spec fn agrees(outcome: Result<(Expression, usize), ExpressionError>, parsed: Parsed) -> bool {
    match outcome {
        Ok((expression, end)) => parsed == Ok::<(ExpressionView, int), ErrorView>(
            (expression_view(expression), end as int),
        ),
        Err(error) => parsed == Err::<(ExpressionView, int), ErrorView>(error@),
    }
}

/// Reads expressions from tokens.
struct ExpressionParser {
    tokens: Vec<Token>,
}

impl ExpressionParser {
    fn parse_expression(&self, position: usize) -> (outcome: Result<
        (Expression, usize),
        ExpressionError,
    >)
        requires
            position <= self.tokens@.len(),
        ensures
            agrees(outcome, parsed_expression(token_views(self.tokens@), position as int)),
            outcome matches Ok((_, end)) ==> position < end <= self.tokens@.len(),
        decreases self.tokens@.len() - position, 2nat,
    {
        let ghost views = token_views(self.tokens@);
        proof {
            lemma_expression_end(views, position as int);
        }
        let (mut expression, mut end) = match self.parse_primary(position) {
            Ok(first) => first,
            Err(error) => {
                return Err(error);
            },
        };
        while end < self.tokens.len()
            invariant
                position < end <= self.tokens@.len(),
                views == token_views(self.tokens@),
                parsed_expression(views, position as int) == parsed_rest(
                    views,
                    expression_view(expression),
                    end as int,
                ),
            decreases self.tokens@.len() - end,
        {
            let and: bool = match &self.tokens[end] {
                Token::And => true,
                Token::Or => false,
                _ => {
                    assert(views[end as int] == self.tokens@[end as int]@);
                    return Ok((expression, end));
                },
            };
            assert(views[end as int] == self.tokens@[end as int]@);
            match self.parse_primary(end + 1) {
                Ok((right, next)) => {
                    expression = if and {
                        Expression::And(Box::new(expression), Box::new(right))
                    } else {
                        Expression::Or(Box::new(expression), Box::new(right))
                    };
                    end = next;
                },
                Err(error) => {
                    return Err(error);
                },
            }
        }
        Ok((expression, end))
    }

    fn parse_primary(&self, position: usize) -> (outcome: Result<
        (Expression, usize),
        ExpressionError,
    >)
        requires
            position <= self.tokens@.len(),
        ensures
            agrees(outcome, parsed_primary(token_views(self.tokens@), position as int)),
            outcome matches Ok((_, end)) ==> position < end <= self.tokens@.len(),
        decreases self.tokens@.len() - position, 1nat,
    {
        let ghost views = token_views(self.tokens@);
        proof {
            lemma_primary_end(views, position as int);
        }
        if position < self.tokens.len() {
            assert(views[position as int] == self.tokens@[position as int]@);
            if let Token::LParen = &self.tokens[position] {
                return match self.parse_expression(position + 1) {
                    Err(error) => Err(error),
                    Ok((expression, end)) => {
                        if end < self.tokens.len() {
                            assert(views[end as int] == self.tokens@[end as int]@);
                            if let Token::RParen = &self.tokens[end] {
                                return Ok((expression, end + 1));
                            }
                        }
                        Err(ExpressionError::ExpectedClosing)
                    },
                };
            }
        }
        self.parse_relation(position)
    }

    fn parse_relation(&self, position: usize) -> (outcome: Result<
        (Expression, usize),
        ExpressionError,
    >)
        requires
            position <= self.tokens@.len(),
        ensures
            agrees(outcome, parsed_relation(token_views(self.tokens@), position as int)),
    {
        let ghost views = token_views(self.tokens@);
        if position >= self.tokens.len() {
            return Err(ExpressionError::UnexpectedEnd);
        }
        assert(views[position as int] == self.tokens@[position as int]@);
        let parameter = match &self.tokens[position] {
            Token::Identifier(identifier) => {
                match parse_parameter(identifier.as_str()) {
                    Some(parameter) => parameter,
                    None => {
                        return Err(ExpressionError::UnsupportedParameter(identifier.clone()));
                    },
                }
            },
            token => {
                return Err(ExpressionError::ExpectedCondition(copy_token(token)));
            },
        };
        if position + 1 >= self.tokens.len() {
            return Err(ExpressionError::UnexpectedEnd);
        }
        assert(views[position + 1] == self.tokens@[position + 1]@);
        let comparer = match &self.tokens[position + 1] {
            Token::Lt => Comparer::Lt,
            Token::Gt => Comparer::Gt,
            Token::Eq => Comparer::Eq,
            token => {
                return Err(ExpressionError::ExpectedComparison(copy_token(token)));
            },
        };
        if position + 2 >= self.tokens.len() {
            return Err(ExpressionError::UnexpectedEnd);
        }
        assert(views[position + 2] == self.tokens@[position + 2]@);
        let value = match &self.tokens[position + 2] {
            Token::Number(number) => Literal::Number(*number),
            Token::Identifier(identifier) => Literal::Text(identifier.clone()),
            token => {
                return Err(ExpressionError::ExpectedValue(copy_token(token)));
            },
        };
        Ok((Expression::Relation { parameter, comparer, value }, position + 3))
    }
}

/// Reads a `remove` expression. `and` and `or` bind alike, and to the left.
pub fn parse_expression(input: &str) -> (parsed: Result<Expression, ExpressionError>)
    ensures
        match parsed {
            Ok(expression) => expression_of(input@) == Ok::<ExpressionView, ErrorView>(
                expression_view(expression),
            ),
            Err(error) => expression_of(input@) == Err::<ExpressionView, ErrorView>(error@),
        },
{
    let tokens = match tokenize(input) {
        Ok(tokens) => tokens,
        Err(error) => {
            return Err(error);
        },
    };
    let parser = ExpressionParser { tokens };
    match parser.parse_expression(0) {
        Err(error) => Err(error),
        Ok((expression, end)) => {
            if end != parser.tokens.len() {
                Err(ExpressionError::TrailingTokens)
            } else {
                Ok(expression)
            }
        },
    }
}

/// Whether tokens make up a relation, or an expression in parentheses.
pub open spec fn is_primary(tokens: Seq<TokenView>, expression: ExpressionView) -> bool
    decreases tokens.len(), 0nat,
{
    ||| tokens.len() == 3 && parsed_relation(tokens, 0) == Ok::<(ExpressionView, int), ErrorView>(
        (expression, 3),
    )
    ||| tokens.len() >= 2 && tokens[0] is LParen && tokens.last() is RParen && is_expression(
        tokens.subrange(1, tokens.len() - 1),
        expression,
    )
}

/// Whether tokens make up an expression: one primary, or an expression joined to a primary on its
/// right.
pub open spec fn is_expression(tokens: Seq<TokenView>, expression: ExpressionView) -> bool
    decreases tokens.len(), 1nat,
{
    ||| is_primary(tokens, expression)
    ||| match expression {
        ExpressionView::Relation { .. } => false,
        ExpressionView::And(left, right) => exists|k: int|
            0 <= k < tokens.len() && #[trigger] tokens[k] is And && is_expression(
                tokens.take(k),
                *left,
            ) && is_primary(tokens.skip(k + 1), *right),
        ExpressionView::Or(left, right) => exists|k: int|
            0 <= k < tokens.len() && #[trigger] tokens[k] is Or && is_expression(
                tokens.take(k),
                *left,
            ) && is_primary(tokens.skip(k + 1), *right),
    }
}

proof fn lemma_primary_is_sound(tokens: Seq<TokenView>, at: int)
    requires
        0 <= at <= tokens.len(),
    ensures
        parsed_primary(tokens, at) matches Ok((expression, end)) ==> at < end <= tokens.len()
            && is_primary(tokens.subrange(at, end), expression),
    decreases tokens.len() - at, 0nat,
{
    lemma_primary_end(tokens, at);
    if let Ok((expression, end)) = parsed_primary(tokens, at) {
        let part = tokens.subrange(at, end);
        if tokens[at] is LParen {
            lemma_expression_is_sound(tokens, at + 1);
            assert(part.subrange(1, part.len() - 1) =~= tokens.subrange(at + 1, end - 1));
        } else {
            assert(part[0] == tokens[at] && part[1] == tokens[at + 1] && part[2] == tokens[at + 2]);
        }
    }
}

proof fn lemma_expression_is_sound(tokens: Seq<TokenView>, at: int)
    requires
        0 <= at <= tokens.len(),
    ensures
        parsed_expression(tokens, at) matches Ok((expression, end)) ==> at < end <= tokens.len()
            && is_expression(tokens.subrange(at, end), expression),
    decreases tokens.len() - at, 2nat,
{
    lemma_primary_is_sound(tokens, at);
    if let Ok((first, end)) = parsed_primary(tokens, at) {
        lemma_rest_is_sound(tokens, at, first, end);
    }
}

proof fn lemma_rest_is_sound(tokens: Seq<TokenView>, from: int, left: ExpressionView, at: int)
    requires
        0 <= from < at <= tokens.len(),
        is_expression(tokens.subrange(from, at), left),
    ensures
        parsed_rest(tokens, left, at) matches Ok((expression, end)) ==> at <= end <= tokens.len()
            && is_expression(tokens.subrange(from, end), expression),
    decreases tokens.len() - at, 1nat,
{
    if at < tokens.len() && (tokens[at] is And || tokens[at] is Or) {
        lemma_primary_is_sound(tokens, at + 1);
        if let Ok((right, end)) = parsed_primary(tokens, at + 1) {
            let both = if tokens[at] is And {
                ExpressionView::And(Box::new(left), Box::new(right))
            } else {
                ExpressionView::Or(Box::new(left), Box::new(right))
            };
            let part = tokens.subrange(from, end);
            let k = at - from;
            assert(part[k] == tokens[at]);
            assert(part.take(k) =~= tokens.subrange(from, at));
            assert(part.skip(k + 1) =~= tokens.subrange(at + 1, end));
            assert(is_expression(part, both));
            lemma_rest_is_sound(tokens, from, both, end);
        }
    }
}

proof fn lemma_primary_is_complete(
    tokens: Seq<TokenView>,
    from: int,
    end: int,
    expression: ExpressionView,
)
    requires
        0 <= from <= end <= tokens.len(),
        is_primary(tokens.subrange(from, end), expression),
    ensures
        from < end,
        parsed_primary(tokens, from) == Ok::<(ExpressionView, int), ErrorView>((expression, end)),
    decreases end - from, 0nat,
{
    let part = tokens.subrange(from, end);
    if part.len() == 3 && parsed_relation(part, 0) == Ok::<(ExpressionView, int), ErrorView>(
        (expression, 3),
    ) {
        assert(part[0] == tokens[from] && part[1] == tokens[from + 1] && part[2] == tokens[from
            + 2]);
    } else {
        assert(part[0] == tokens[from] && part.last() == tokens[end - 1]);
        assert(part.subrange(1, part.len() - 1) =~= tokens.subrange(from + 1, end - 1));
        lemma_expression_is_complete(tokens, from + 1, end - 1, expression);
    }
}

proof fn lemma_expression_is_complete(
    tokens: Seq<TokenView>,
    from: int,
    end: int,
    expression: ExpressionView,
)
    requires
        0 <= from <= end <= tokens.len(),
        is_expression(tokens.subrange(from, end), expression),
    ensures
        from < end,
        parsed_expression(tokens, from) == parsed_rest(tokens, expression, end),
    decreases end - from, 1nat,
{
    let part = tokens.subrange(from, end);
    if is_primary(part, expression) {
        lemma_primary_is_complete(tokens, from, end, expression);
    } else {
        let (left, right, k) = match expression {
            ExpressionView::And(left, right) => (
                *left,
                *right,
                choose|k: int|
                    0 <= k < part.len() && #[trigger] part[k] is And && is_expression(
                        part.take(k),
                        *left,
                    ) && is_primary(part.skip(k + 1), *right),
            ),
            ExpressionView::Or(left, right) => (
                *left,
                *right,
                choose|k: int|
                    0 <= k < part.len() && #[trigger] part[k] is Or && is_expression(
                        part.take(k),
                        *left,
                    ) && is_primary(part.skip(k + 1), *right),
            ),
            ExpressionView::Relation { .. } => (expression, expression, 0),
        };
        assert(part[k] == tokens[from + k]);
        assert(part.take(k) =~= tokens.subrange(from, from + k));
        assert(part.skip(k + 1) =~= tokens.subrange(from + k + 1, end));
        lemma_expression_is_complete(tokens, from, from + k, left);
        lemma_primary_is_complete(tokens, from + k + 1, end, right);
    }
}

/// Reading accepts exactly the expressions of the grammar, in which `and` and `or` bind alike and to
/// the left, and gives the expression that the tokens make up.
pub proof fn law_expressions_are_left_associative(
    tokens: Seq<TokenView>,
    expression: ExpressionView,
)
    ensures
        is_expression(tokens, expression) == (parsed_expression(tokens, 0) == Ok::<
            (ExpressionView, int),
            ErrorView,
        >((expression, tokens.len() as int))),
{
    assert(tokens.subrange(0, tokens.len() as int) =~= tokens);
    if is_expression(tokens, expression) {
        lemma_expression_is_complete(tokens, 0, tokens.len() as int, expression);
    }
    lemma_expression_is_sound(tokens, 0);
}

/// Three tokens are a relation if and only if they are the name of a parameter, a comparison sign and
/// a number or a word; it compares that parameter, by that sign, with that value. The first token that
/// does not fit is named, and if there are too few tokens that is said.
pub proof fn law_relations_are_read(tokens: Seq<TokenView>, at: int)
    requires
        0 <= at <= tokens.len(),
    ensures
        ({
            let read = parsed_relation(tokens, at);
            let name = tokens[at]->Identifier_0;
            let named = at < tokens.len() && tokens[at] is Identifier && parameter_of(name) is Some;
            let sign = tokens[at + 1];
            let signed = named && at + 1 < tokens.len() && (sign is Lt || sign is Gt || sign is Eq);
            let value = tokens[at + 2];
            let valued = signed && at + 2 < tokens.len() && (value is Number || value is Identifier);
            &&& read is Ok <==> valued
            &&& read matches Ok((expression, end)) ==> {
                &&& end == at + 3
                &&& expression matches ExpressionView::Relation { parameter, comparer, value: held }
                    && {
                    &&& Some(parameter) == parameter_of(name)
                    &&& comparer == Comparer::Lt <==> sign is Lt
                    &&& comparer == Comparer::Gt <==> sign is Gt
                    &&& comparer == Comparer::Eq <==> sign is Eq
                    &&& value is Number ==> held == LiteralView::Number(value->Number_0)
                    &&& value is Identifier ==> held == LiteralView::Text(value->Identifier_0)
                }
            }
            &&& at < tokens.len() && !(tokens[at] is Identifier) ==> read == Err::<
                (ExpressionView, int),
                ErrorView,
            >(ErrorView::ExpectedCondition(tokens[at]))
            &&& at < tokens.len() && tokens[at] is Identifier && !named ==> read == Err::<
                (ExpressionView, int),
                ErrorView,
            >(ErrorView::UnsupportedParameter(name))
            &&& named && at + 1 < tokens.len() && !signed ==> read == Err::<
                (ExpressionView, int),
                ErrorView,
            >(ErrorView::ExpectedComparison(sign))
            &&& signed && at + 2 < tokens.len() && !valued ==> read == Err::<
                (ExpressionView, int),
                ErrorView,
            >(ErrorView::ExpectedValue(value))
            &&& at == tokens.len() || (named && at + 1 == tokens.len()) || (signed && at + 2
                == tokens.len()) ==> read == Err::<(ExpressionView, int), ErrorView>(
                ErrorView::UnexpectedEnd,
            )
        }),
{
}

/// The names of the parameters, each of which stands for one of them.
pub proof fn law_parameters_have_names(name: Seq<char>)
    ensures
        parameter_of(name) == Some(Parameter::AverageDownloadSpeed) <==> name
            == "average_downloadspeed"@,
        parameter_of(name) == Some(Parameter::AverageUploadSpeed) <==> name
            == "average_uploadspeed"@,
        parameter_of(name) == Some(Parameter::ConnectedLeecher) <==> name == "connected_leecher"@,
        parameter_of(name) == Some(Parameter::ConnectedSeeder) <==> name == "connected_seeder"@,
        parameter_of(name) == Some(Parameter::CreateTime) <==> name == "create_time"@,
        parameter_of(name) == Some(Parameter::Download) <==> name == "download"@,
        parameter_of(name) == Some(Parameter::DownloadSpeed) <==> name == "download_speed"@,
        parameter_of(name) == Some(Parameter::DownloadingTime) <==> name == "downloading_time"@,
        parameter_of(name) == Some(Parameter::LastActivity) <==> name == "last_activity"@,
        parameter_of(name) == Some(Parameter::Leecher) <==> name == "leecher"@,
        parameter_of(name) == Some(Parameter::Progress) <==> name == "progress"@,
        parameter_of(name) == Some(Parameter::Ratio) <==> name == "ratio"@,
        parameter_of(name) == Some(Parameter::Seeder) <==> name == "seeder"@,
        parameter_of(name) == Some(Parameter::SeedingTime) <==> name == "seeding_time"@,
        parameter_of(name) == Some(Parameter::Size) <==> name == "size"@,
        parameter_of(name) == Some(Parameter::Upload) <==> name == "upload"@,
        parameter_of(name) == Some(Parameter::UploadRatio) <==> name == "upload_ratio"@,
        parameter_of(name) == Some(Parameter::UploadSpeed) <==> name == "upload_speed"@,
{
    reveal_strlit("average_downloadspeed");
    reveal_strlit("average_uploadspeed");
    reveal_strlit("connected_leecher");
    reveal_strlit("connected_seeder");
    reveal_strlit("create_time");
    reveal_strlit("download");
    reveal_strlit("download_speed");
    reveal_strlit("downloading_time");
    reveal_strlit("last_activity");
    reveal_strlit("leecher");
    reveal_strlit("progress");
    reveal_strlit("ratio");
    reveal_strlit("seeder");
    reveal_strlit("seeding_time");
    reveal_strlit("size");
    reveal_strlit("upload");
    reveal_strlit("upload_ratio");
    reveal_strlit("upload_speed");
    assert("connected_seeder"@[0] != "downloading_time"@[0]);
    assert("download"@[0] != "progress"@[0]);
    assert("seeder"@[0] != "upload"@[0]);
    assert("seeding_time"@[0] != "upload_ratio"@[0]);
    assert("seeding_time"@[0] != "upload_speed"@[0]);
    assert("upload_ratio"@[7] != "upload_speed"@[7]);
    assert("average_downloadspeed"@.len() == 21);
    assert("average_uploadspeed"@.len() == 19);
    assert("connected_leecher"@.len() == 17);
    assert("connected_seeder"@.len() == 16);
    assert("create_time"@.len() == 11);
    assert("download"@.len() == 8);
    assert("download_speed"@.len() == 14);
    assert("downloading_time"@.len() == 16);
    assert("last_activity"@.len() == 13);
    assert("leecher"@.len() == 7);
    assert("progress"@.len() == 8);
    assert("ratio"@.len() == 5);
    assert("seeder"@.len() == 6);
    assert("seeding_time"@.len() == 12);
    assert("size"@.len() == 4);
    assert("upload"@.len() == 6);
    assert("upload_ratio"@.len() == 12);
    assert("upload_speed"@.len() == 12);
}

/// A text is an expression if and only if it consists of tokens that make one up. Tokens behind a
/// whole expression are too many.
pub proof fn law_texts_are_expressions(text: Seq<char>, expression: ExpressionView)
    ensures
        expression_of(text) == Ok::<ExpressionView, ErrorView>(expression) <==> (lexed(
            text,
        ) matches Ok(tokens) && is_expression(tokens, expression)),
        expression_of(text) == Err::<ExpressionView, ErrorView>(ErrorView::TrailingTokens) && (lexed(
            text,
        ) is Ok) ==> exists|end: int|
            0 < end < lexed(text)->Ok_0.len() && #[trigger] begins_expression(
                lexed(text)->Ok_0,
                end,
            ),
{
    if let Ok(tokens) = lexed(text) {
        law_expressions_are_left_associative(tokens, expression);
        lemma_expression_end(tokens, 0);
        lemma_expression_is_sound(tokens, 0);
        lemma_no_trailing(tokens, 0);
        if let Ok((first, end)) = parsed_expression(tokens, 0) {
            if end != tokens.len() {
                assert(is_expression(tokens.subrange(0, end), first));
                assert(tokens.take(end) =~= tokens.subrange(0, end));
                assert(begins_expression(tokens, end));
            }
        }
    }
}

/// Whether the first tokens, up to a place, make up an expression.
pub open spec fn begins_expression(tokens: Seq<TokenView>, end: int) -> bool {
    exists|expression: ExpressionView| #[trigger] is_expression(tokens.take(end), expression)
}

proof fn lemma_no_trailing(tokens: Seq<TokenView>, at: int)
    ensures
        !(parsed_expression(tokens, at) matches Err(ErrorView::TrailingTokens)),
    decreases tokens.len() - at, 2nat,
{
    lemma_no_trailing_primary(tokens, at);
    if let Ok((first, end)) = parsed_primary(tokens, at) {
        if at < end <= tokens.len() {
            lemma_no_trailing_rest(tokens, first, end);
        }
    }
}

proof fn lemma_no_trailing_primary(tokens: Seq<TokenView>, at: int)
    ensures
        !(parsed_primary(tokens, at) matches Err(ErrorView::TrailingTokens)),
    decreases tokens.len() - at, 0nat,
{
    if at < tokens.len() && tokens[at] is LParen {
        lemma_no_trailing(tokens, at + 1);
    }
}

proof fn lemma_no_trailing_rest(tokens: Seq<TokenView>, left: ExpressionView, at: int)
    ensures
        !(parsed_rest(tokens, left, at) matches Err(ErrorView::TrailingTokens)),
    decreases tokens.len() - at, 1nat,
{
    if at < tokens.len() && (tokens[at] is And || tokens[at] is Or) {
        lemma_no_trailing_primary(tokens, at + 1);
        if let Ok((right, end)) = parsed_primary(tokens, at + 1) {
            let both = if tokens[at] is And {
                ExpressionView::And(Box::new(left), Box::new(right))
            } else {
                ExpressionView::Or(Box::new(left), Box::new(right))
            };
            if at < end <= tokens.len() {
                lemma_no_trailing_rest(tokens, both, end);
            }
        }
    }
}

/// A parenthesis that opens an expression has to be closed behind it; what is wrong between them is
/// said first.
pub proof fn law_parentheses_are_closed(tokens: Seq<TokenView>, at: int)
    requires
        0 <= at < tokens.len(),
        tokens[at] is LParen,
    ensures
        parsed_expression(tokens, at + 1) matches Err(error) ==> parsed_primary(tokens, at) == Err::<
            (ExpressionView, int),
            ErrorView,
        >(error),
        parsed_expression(tokens, at + 1) matches Ok((expression, end)) ==> parsed_primary(
            tokens,
            at,
        ) == (if end < tokens.len() && tokens[end] is RParen {
            Ok::<(ExpressionView, int), ErrorView>((expression, end + 1))
        } else {
            Err(ErrorView::ExpectedClosing)
        }),
{
}

/// Tokens stand side by side. Blanks and tabs say nothing. A sign is a token by itself. A word begins
/// with a letter and goes on with letters, digits, `_` and `-` as far as there are any; `and` and `or`
/// join expressions and any other word is taken in lower case. Any other character is turned down.
pub proof fn law_tokens_stand_side_by_side(first: char, word: Seq<char>, rest: Seq<char>)
    requires
        word.len() > 0,
        'a' <= word[0] <= 'z' || 'A' <= word[0] <= 'Z',
        forall|i: int|
            0 <= i < word.len() ==> {
                ||| 'a' <= #[trigger] word[i] <= 'z'
                ||| 'A' <= word[i] <= 'Z'
                ||| '0' <= word[i] <= '9'
                ||| word[i] == '_'
                ||| word[i] == '-'
            },
        rest.len() > 0 ==> !('a' <= rest[0] <= 'z' || 'A' <= rest[0] <= 'Z' || '0' <= rest[0] <= '9'
            || rest[0] == '_' || rest[0] == '-'),
    ensures
        lexed(Seq::empty()) == Ok::<Seq<TokenView>, ErrorView>(Seq::empty()),
        first == ' ' || first == '\t' ==> lexed(seq![first] + rest) == lexed(rest),
        first == '(' ==> lexed(seq![first] + rest) == put_before(TokenView::LParen, lexed(rest)),
        first == ')' ==> lexed(seq![first] + rest) == put_before(TokenView::RParen, lexed(rest)),
        first == '<' ==> lexed(seq![first] + rest) == put_before(TokenView::Lt, lexed(rest)),
        first == '>' ==> lexed(seq![first] + rest) == put_before(TokenView::Gt, lexed(rest)),
        first == '=' ==> lexed(seq![first] + rest) == put_before(TokenView::Eq, lexed(rest)),
        lower(word) == "and"@ ==> lexed(word + rest) == put_before(TokenView::And, lexed(rest)),
        lower(word) == "or"@ ==> lexed(word + rest) == put_before(TokenView::Or, lexed(rest)),
        lower(word) != "and"@ && lower(word) != "or"@ ==> lexed(word + rest) == put_before(
            TokenView::Identifier(lower(word)),
            lexed(rest),
        ),
        first != ' ' && first != '\t' && first != '(' && first != ')' && first != '<' && first
            != '>' && first != '=' && !('0' <= first <= '9') && !('a' <= first <= 'z') && !('A'
            <= first <= 'Z') ==> lexed(seq![first] + rest) == Err::<Seq<TokenView>, ErrorView>(
            ErrorView::IllegalCharacter(first),
        ),
{
    let sign = seq![first] + rest;
    assert(sign[0] == first);
    assert(sign.skip(1) =~= rest);
    let text = word + rest;
    assert(text[0] == word[0]);
    assert(text.skip(1) =~= word.skip(1) + rest);
    assert forall|i: int| 0 <= i < word.skip(1).len() implies is_word_char(
        #[trigger] word.skip(1)[i],
    ) by {
        assert(word.skip(1)[i] == word[i + 1]);
    }
    lemma_word_len_is(word.skip(1), rest);
    assert(text.take(word.len() as int) =~= word);
    assert(text.skip(word.len() as int) =~= rest);
    reveal_strlit("and");
    reveal_strlit("or");
    assert("and"@.len() != "or"@.len());
}

/// A token put before what comes of the rest of a text.
pub open spec fn put_before(
    token: TokenView,
    rest: Result<Seq<TokenView>, ErrorView>,
) -> Result<Seq<TokenView>, ErrorView> {
    match rest {
        Ok(tokens) => Ok(seq![token] + tokens),
        Err(error) => Err(error),
    }
}

proof fn lemma_word_len_is(word: Seq<char>, rest: Seq<char>)
    requires
        forall|i: int| 0 <= i < word.len() ==> is_word_char(#[trigger] word[i]),
        rest.len() > 0 ==> !is_word_char(rest[0]),
    ensures
        word_len(word + rest) == word.len(),
    decreases word.len(),
{
    let text = word + rest;
    if word.len() > 0 {
        assert(text[0] == word[0]);
        assert(text.skip(1) =~= word.skip(1) + rest);
        assert forall|i: int| 0 <= i < word.skip(1).len() implies is_word_char(
            #[trigger] word.skip(1)[i],
        ) by {
            assert(word.skip(1)[i] == word[i + 1]);
        }
        lemma_word_len_is(word.skip(1), rest);
    } else {
        assert(text =~= rest);
    }
}

/// A number begins with a digit and goes on with digits and points as far as there are any. It has one
/// point at most; one with more is turned down.
pub proof fn law_numbers_are_read(number: Seq<char>, rest: Seq<char>)
    requires
        number.len() > 0,
        '0' <= number[0] <= '9',
        forall|i: int|
            0 <= i < number.len() ==> '0' <= #[trigger] number[i] <= '9' || number[i] == '.',
        rest.len() > 0 ==> !('0' <= rest[0] <= '9' || rest[0] == '.'),
    ensures
        number.filter(|ch: char| ch == '.').len() <= 1 ==> lexed(number + rest) == put_before(
            TokenView::Number(decimal(number)),
            lexed(rest),
        ),
        number.filter(|ch: char| ch == '.').len() > 1 ==> lexed(number + rest) == Err::<
            Seq<TokenView>,
            ErrorView,
        >(ErrorView::InvalidNumber(number)),
{
    let text = number + rest;
    assert(text[0] == number[0]);
    assert(text.skip(1) =~= number.skip(1) + rest);
    assert forall|i: int| 0 <= i < number.skip(1).len() implies is_number_char(
        #[trigger] number.skip(1)[i],
    ) by {
        assert(number.skip(1)[i] == number[i + 1]);
    }
    lemma_number_len_is(number.skip(1), rest);
    assert(text.take(number.len() as int) =~= number);
    assert(text.skip(number.len() as int) =~= rest);
    law_decimals_have_one_point(number);
}

proof fn lemma_number_len_is(number: Seq<char>, rest: Seq<char>)
    requires
        forall|i: int| 0 <= i < number.len() ==> is_number_char(#[trigger] number[i]),
        rest.len() > 0 ==> !is_number_char(rest[0]),
    ensures
        number_len(number + rest) == number.len(),
    decreases number.len(),
{
    let text = number + rest;
    if number.len() > 0 {
        assert(text[0] == number[0]);
        assert(text.skip(1) =~= number.skip(1) + rest);
        assert forall|i: int| 0 <= i < number.skip(1).len() implies is_number_char(
            #[trigger] number.skip(1)[i],
        ) by {
            assert(number.skip(1)[i] == number[i + 1]);
        }
        lemma_number_len_is(number.skip(1), rest);
    } else {
        assert(text =~= rest);
    }
}

} // verus!
