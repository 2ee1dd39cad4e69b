//! The lexer: a single left-to-right scan that turns the database text
//! into parenthesis, terminator, keyword and word tokens. It never fails:
//! unrecognised words stay generic word tokens, and the parser decides.
use vstd::prelude::*;

use crate::common::ParseError;
use crate::leases::LeaseKeyword;
use crate::leases::lease_keyword_of;
use crate::leases::lease_keyword_str;
use crate::parser::ConfigKeyword;
use crate::parser::config_keyword_of;
use crate::parser::config_keyword_str;

verus! {

/// Spec-level mirror of [`LexItem`], with the word as a `Seq<char>`.
#[verifier::ext_equal]
pub enum Token {
    Paren(char),
    Endl,
    Word(Seq<char>),
    Opt(LeaseKeyword),
    Decl(ConfigKeyword),
}

/// One token of the lease-database text: a parenthesis or brace, the `;`
/// statement terminator, a generic word, or a recognised keyword.
#[derive(Debug, Clone)]
pub enum LexItem {
    Paren(char),
    Endl,
    Word(String),
    Opt(LeaseKeyword),
    Decl(ConfigKeyword),
}

impl View for LexItem {
    type V = Token;

    open spec fn view(&self) -> Token {
        match self {
            LexItem::Paren(c) => Token::Paren(*c),
            LexItem::Endl => Token::Endl,
            LexItem::Word(w) => Token::Word(w@),
            LexItem::Opt(k) => Token::Opt(*k),
            LexItem::Decl(k) => Token::Decl(*k),
        }
    }
}

impl DeepView for LexItem {
    type V = Token;

    open spec fn deep_view(&self) -> Token {
        self.view()
    }
}

/// Characters the lexer skips: whitespace only. Quote characters are
/// ordinary word characters — the lexer does no quote-stripping.
pub open spec fn is_skip_char(c: char) -> bool {
    c == ' ' || c == '\t' || c == '\n' || c == '\r'
}

pub open spec fn is_paren_char(c: char) -> bool {
    c == '(' || c == ')' || c == '[' || c == ']' || c == '{' || c == '}'
}

/// Characters that may stand inside a word: any non-whitespace character
/// other than the statement terminator. A parenthesis becomes a token of
/// its own only where a word does not already run, so `a{b` is one word.
pub open spec fn is_word_char(c: char) -> bool {
    !is_skip_char(c) && c != ';'
}

/// The length of the maximal word prefix of `s`.
pub open spec fn word_len(s: Seq<char>) -> nat
    decreases s.len(),
{
    if s.len() == 0 || !is_word_char(s[0]) {
        0
    } else {
        1 + word_len(s.drop_first())
    }
}

pub proof fn lemma_word_len_le(s: Seq<char>)
    ensures
        word_len(s) <= s.len(),
    decreases s.len(),
{
    if s.len() > 0 && is_word_char(s[0]) {
        lemma_word_len_le(s.drop_first());
    }
}

/// The maximal word prefix ends exactly where the first non-word character
/// stands (or at the end of the text).
pub proof fn lemma_word_len_determined(s: Seq<char>, j: int)
    requires
        0 <= j <= s.len(),
        forall|k: int| 0 <= k < j ==> is_word_char(#[trigger] s[k]),
        j == s.len() || !is_word_char(s[j]),
    ensures
        word_len(s) == j,
    decreases j,
{
    if j > 0 {
        lemma_word_len_determined(s.drop_first(), j - 1);
    }
}

/// How a word is classified: first against the declaration keywords, then
/// against the option keywords, else it stays a generic word.
pub open spec fn classify_word(w: Seq<char>) -> Token {
    match config_keyword_of(w) {
        Some(k) => Token::Decl(k),
        None => match lease_keyword_of(w) {
            Some(k) => Token::Opt(k),
            None => Token::Word(w),
        },
    }
}

/// The token stream of the whole text: parentheses and `;` are single
/// tokens, skip characters separate, and every maximal word run is
/// classified by [`classify_word`].
pub open spec fn spec_lex(s: Seq<char>) -> Seq<Token>
    decreases s.len(),
    via spec_lex_decreases
{
    if s.len() == 0 {
        Seq::empty()
    } else if is_skip_char(s[0]) {
        spec_lex(s.drop_first())
    } else if is_paren_char(s[0]) {
        seq![Token::Paren(s[0])] + spec_lex(s.drop_first())
    } else if s[0] == ';' {
        seq![Token::Endl] + spec_lex(s.drop_first())
    } else {
        seq![classify_word(s.take(word_len(s) as int))] + spec_lex(s.skip(word_len(s) as int))
    }
}

#[via_fn]
proof fn spec_lex_decreases(s: Seq<char>) {
    lemma_word_len_le(s);
}

/// The rendering of a token, used in error payloads. A parenthesis token
/// the lexer never produces renders as a placeholder.
pub open spec fn token_text(t: Token) -> Seq<char> {
    match t {
        Token::Paren(c) => paren_text(c),
        Token::Endl => ";"@,
        Token::Word(w) => w,
        Token::Opt(k) => lease_keyword_str(k),
        Token::Decl(k) => config_keyword_str(k),
    }
}

pub open spec fn paren_text(c: char) -> Seq<char> {
    if c == '(' {
        "("@
    } else if c == ')' {
        ")"@
    } else if c == '[' {
        "["@
    } else if c == ']' {
        "]"@
    } else if c == '{' {
        "{"@
    } else if c == '}' {
        "}"@
    } else {
        "?"@
    }
}

fn is_word_char_exec(c: char) -> (r: bool)
    ensures
        r == is_word_char(c),
{
    !(c == ' ' || c == '\t' || c == '\n' || c == '\r' || c == ';')
}

/// Whether every token of the stream renders to non-empty text.
pub open spec fn token_texts_nonempty(t: Seq<Token>) -> bool {
    forall|i: int| 0 <= i < t.len() ==> token_text(#[trigger] t[i]).len() > 0
}

proof fn lemma_token_text_nonempty(tok: Token)
    requires
        tok matches Token::Word(w) ==> w.len() > 0,
    ensures
        token_text(tok).len() > 0,
{
    reveal_strlit(";");
    reveal_strlit("(");
    reveal_strlit(")");
    reveal_strlit("[");
    reveal_strlit("]");
    reveal_strlit("{");
    reveal_strlit("}");
    reveal_strlit("?");
    reveal_strlit("lease");
    reveal_strlit("abandoned");
    reveal_strlit("client-hostname");
    reveal_strlit("ends");
    reveal_strlit("hardware");
    reveal_strlit("hostname");
    reveal_strlit("starts");
    reveal_strlit("uid");
}

/// The lexer never emits a token with empty text: a word is a maximal
/// non-empty run, and every other token has a fixed spelling.
pub proof fn lemma_lex_texts_nonempty(s: Seq<char>)
    ensures
        token_texts_nonempty(spec_lex(s)),
    decreases s.len(),
{
    if s.len() == 0 {
    } else if is_skip_char(s[0]) {
        lemma_lex_texts_nonempty(s.drop_first());
    } else if is_paren_char(s[0]) {
        lemma_lex_texts_nonempty(s.drop_first());
        lemma_token_text_nonempty(Token::Paren(s[0]));
    } else if s[0] == ';' {
        lemma_lex_texts_nonempty(s.drop_first());
        lemma_token_text_nonempty(Token::Endl);
    } else {
        let n = word_len(s) as int;
        lemma_word_len_le(s);
        assert(n >= 1);
        lemma_lex_texts_nonempty(s.skip(n));
        lemma_token_text_nonempty(classify_word(s.take(n)));
    }
}

impl LexItem {
    /// The token's text, as [`token_text`] states it.
    pub fn to_string(&self) -> (r: String)
        ensures
            r@ == token_text(self@),
    {
        match self {
            LexItem::Paren(c) => {
                if *c == '(' {
                    String::from_str("(")
                } else if *c == ')' {
                    String::from_str(")")
                } else if *c == '[' {
                    String::from_str("[")
                } else if *c == ']' {
                    String::from_str("]")
                } else if *c == '{' {
                    String::from_str("{")
                } else if *c == '}' {
                    String::from_str("}")
                } else {
                    String::from_str("?")
                }
            },
            LexItem::Endl => String::from_str(";"),
            LexItem::Word(w) => w.clone(),
            LexItem::Opt(k) => k.to_string(),
            LexItem::Decl(k) => k.to_string(),
        }
    }
}

/// Tokenises the whole text. Lexing never fails; the result is exactly
/// [`spec_lex`] of the input.
pub fn lex(input: String) -> (r: Result<Vec<LexItem>, ParseError>)
    ensures
        r matches Ok(v) && v.deep_view() == spec_lex(input@),
{
    let s = input.as_str();
    let n = s.unicode_len();
    let mut toks: Vec<LexItem> = Vec::new();
    let mut i: usize = 0;
    proof {
        assert(s@.skip(0) =~= s@);
        assert(toks.deep_view() =~= Seq::<Token>::empty());
    }
    while i < n
        invariant
            n == s@.len(),
            s@ == input@,
            0 <= i <= n,
            spec_lex(s@) =~= toks.deep_view() + spec_lex(s@.skip(i as int)),
        decreases n - i,
    {
        let ghost rest = s@.skip(i as int);
        let ghost pre = toks.deep_view();
        let c = s.get_char(i);
        assert(rest[0] == c);
        if c == ' ' || c == '\t' || c == '\n' || c == '\r' {
            proof {
                assert(rest.drop_first() =~= s@.skip(i + 1));
            }
            i += 1;
        } else if c == '(' || c == ')' || c == '[' || c == ']' || c == '{' || c == '}' {
            toks.push(LexItem::Paren(c));
            proof {
                assert(rest.drop_first() =~= s@.skip(i + 1));
                assert(toks.deep_view() =~= pre.push(Token::Paren(c)));
                assert(spec_lex(s@) =~= toks.deep_view() + spec_lex(s@.skip(i + 1)));
            }
            i += 1;
        } else if c == ';' {
            toks.push(LexItem::Endl);
            proof {
                assert(rest.drop_first() =~= s@.skip(i + 1));
                assert(toks.deep_view() =~= pre.push(Token::Endl));
                assert(spec_lex(s@) =~= toks.deep_view() + spec_lex(s@.skip(i + 1)));
            }
            i += 1;
        } else {
            let mut j = i + 1;
            while j < n && is_word_char_exec(s.get_char(j))
                invariant
                    n == s@.len(),
                    i < j <= n,
                    forall|k: int| i <= k < j ==> is_word_char(#[trigger] s@[k]),
                decreases n - j,
            {
                j += 1;
            }
            proof {
                lemma_word_len_determined(rest, j - i);
                assert(rest.take(j - i) =~= s@.subrange(i as int, j as int));
                assert(rest.skip(j - i) =~= s@.skip(j as int));
            }
            let wtext = s.substring_char(i, j).to_owned();
            let tok = match ConfigKeyword::from(wtext.as_str()) {
                Ok(kw) => LexItem::Decl(kw),
                Err(_) => match LeaseKeyword::from(wtext.as_str()) {
                    Ok(kw) => LexItem::Opt(kw),
                    Err(_) => LexItem::Word(wtext),
                },
            };
            assert(tok@ == classify_word(rest.take(j - i)));
            toks.push(tok);
            proof {
                assert(toks.deep_view() =~= pre.push(tok@));
                assert(spec_lex(s@) =~= toks.deep_view() + spec_lex(s@.skip(j as int)));
            }
            i = j;
        }
    }
    proof {
        assert(s@.skip(n as int) =~= Seq::<char>::empty());
        assert(toks.deep_view() + spec_lex(s@.skip(n as int)) =~= toks.deep_view());
    }
    Ok(toks)
}

} // verus!
