use vstd::prelude::*;
use crate::ident::all_keyword;
use crate::text::{bytes_eq, copy_range};

verus! {

/// A token of the rule language.
#[derive(Debug, PartialEq, Eq)]
pub enum Token {
    /// The keyword `ALL`.
    All,
    /// A name, a path or an argument.
    Word(Vec<u8>),
    /// `!`
    Not,
    /// `,`
    Comma,
    /// `=`
    Assign,
    /// `:`
    Colon,
    /// `(`
    Open,
    /// `)`
    Close,
}

/// What a `Token` stands for.
pub enum TokenModel {
    All,
    Word(Seq<u8>),
    Not,
    Comma,
    Assign,
    Colon,
    Open,
    Close,
}

impl DeepView for Token {
    type V = TokenModel;

    open spec fn deep_view(&self) -> TokenModel {
        match *self {
            Token::All => TokenModel::All,
            Token::Word(text) => TokenModel::Word(text@),
            Token::Not => TokenModel::Not,
            Token::Comma => TokenModel::Comma,
            Token::Assign => TokenModel::Assign,
            Token::Colon => TokenModel::Colon,
            Token::Open => TokenModel::Open,
            Token::Close => TokenModel::Close,
        }
    }
}

/// Blank, tab, carriage return and line feed separate tokens.
pub open spec fn is_space(b: u8) -> bool {
    b == 0x20 || b == 0x09 || b == 0x0d || b == 0x0a
}

/// The token that a punctuation byte stands for.
pub open spec fn punctuation(b: u8) -> Option<TokenModel> {
    if b == 0x21 {
        Some(TokenModel::Not)
    } else if b == 0x2c {
        Some(TokenModel::Comma)
    } else if b == 0x3d {
        Some(TokenModel::Assign)
    } else if b == 0x3a {
        Some(TokenModel::Colon)
    } else if b == 0x28 {
        Some(TokenModel::Open)
    } else if b == 0x29 {
        Some(TokenModel::Close)
    } else {
        None
    }
}

/// A byte of a word: neither space nor punctuation.
pub open spec fn is_word_byte(b: u8) -> bool {
    !is_space(b) && punctuation(b) is None
}

/// The number of word bytes that follow each other from `from` on.
pub open spec fn word_len(line: Seq<u8>, from: int) -> nat
    decreases line.len() - from,
{
    if 0 <= from < line.len() && is_word_byte(line[from]) {
        1 + word_len(line, from + 1)
    } else {
        0
    }
}

/// A run of word bytes ends within the line.
pub proof fn lemma_word_len_bound(line: Seq<u8>, from: int)
    requires
        0 <= from <= line.len(),
    ensures
        from + word_len(line, from) <= line.len(),
    decreases line.len() - from,
{
    if from < line.len() && is_word_byte(line[from]) {
        lemma_word_len_bound(line, from + 1);
    }
}

/// The token that a word stands for.
pub open spec fn word_token(text: Seq<u8>) -> TokenModel {
    if text == all_keyword() {
        TokenModel::All
    } else {
        TokenModel::Word(text)
    }
}

/// The tokens of `line[from..]`: space is skipped, each punctuation byte is a token, and
/// each longest run of other bytes is a word.
pub open spec fn lex(line: Seq<u8>, from: int) -> Seq<TokenModel>
    decreases line.len() - from,
{
    if from < 0 || from >= line.len() {
        Seq::empty()
    } else if is_space(line[from]) {
        lex(line, from + 1)
    } else if punctuation(line[from]) is Some {
        seq![punctuation(line[from])->Some_0] + lex(line, from + 1)
    } else {
        let n = word_len(line, from);
        proof {
            lemma_word_len_bound(line, from);
        }
        seq![word_token(line.subrange(from, from + n))] + lex(line, from + n)
    }
}

fn punctuation_token(b: u8) -> (out: Option<Token>)
    ensures
        out.deep_view() == punctuation(b),
{
    if b == 0x21 {
        Some(Token::Not)
    } else if b == 0x2c {
        Some(Token::Comma)
    } else if b == 0x3d {
        Some(Token::Assign)
    } else if b == 0x3a {
        Some(Token::Colon)
    } else if b == 0x28 {
        Some(Token::Open)
    } else if b == 0x29 {
        Some(Token::Close)
    } else {
        None
    }
}

fn space(b: u8) -> (out: bool)
    ensures
        out == is_space(b),
{
    b == 0x20 || b == 0x09 || b == 0x0d || b == 0x0a
}

/// Splits a line into its tokens.
pub fn tokenize(line: &[u8]) -> (tokens: Vec<Token>)
    ensures
        tokens.deep_view() == lex(line@, 0),
{
    let mut tokens: Vec<Token> = Vec::new();
    let mut i: usize = 0;
    proof {
        assert(tokens.deep_view() + lex(line@, 0) =~= lex(line@, 0));
    }
    while i < line.len()
        invariant
            i <= line.len(),
            lex(line@, 0) == tokens.deep_view() + lex(line@, i as int),
        decreases line.len() - i,
    {
        let ghost done = tokens.deep_view();
        let b = line[i];
        if space(b) {
            i += 1;
        } else {
            match punctuation_token(b) {
                Some(token) => {
                    let ghost t = token.deep_view();
                    tokens.push(token);
                    i += 1;
                    proof {
                        assert(tokens.deep_view() =~= done.push(t));
                        assert(done + (seq![t] + lex(line@, i as int)) =~= done.push(t) + lex(
                            line@,
                            i as int,
                        ));
                    }
                },
                None => {
                    let start = i;
                    i += 1;
                    while i < line.len() && !space(line[i]) && punctuation_token(line[i]).is_none()
                        invariant
                            start < i <= line.len(),
                            word_len(line@, start as int) == (i - start) + word_len(
                                line@,
                                i as int,
                            ),
                        decreases line.len() - i,
                    {
                        i += 1;
                    }
                    let text = copy_range(line, start, i);
                    let token = if bytes_eq(text.as_slice(), "ALL".as_bytes()) {
                        Token::All
                    } else {
                        Token::Word(text)
                    };
                    let ghost t = token.deep_view();
                    tokens.push(token);
                    proof {
                        assert(word_len(line@, start as int) == i - start);
                        assert(t == word_token(line@.subrange(start as int, i as int)));
                        assert(tokens.deep_view() =~= done.push(t));
                        assert(done + (seq![t] + lex(line@, i as int)) =~= done.push(t) + lex(
                            line@,
                            i as int,
                        ));
                    }
                },
            }
        }
    }
    proof {
        assert(tokens.deep_view() + lex(line@, i as int) =~= tokens.deep_view());
    }
    tokens
}

} // verus!
