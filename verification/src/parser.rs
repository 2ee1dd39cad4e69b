//! The top level: the declaration keyword, the grammar over the token
//! stream, and `parse`, which turns a whole lease database text into the
//! ordered lease collection or the first error.
use vstd::prelude::*;

use crate::common::ParseError;
use crate::common::ParseErrorView;
use crate::lex::LexItem;
use crate::lex::Token;
use crate::lex::lex;
use crate::lex::spec_lex;
use crate::lex::token_text;
use crate::leases::Lease;
use crate::leases::LeaseView;
use crate::leases::Leases;
pub use crate::leases::LeasesMethods;
use crate::leases::parse_lease;
use crate::leases::lemma_parse_opts_ok;
use crate::leases::spec_lease_init;
use crate::leases::spec_parse_opts;

verus! {

/// The closed set of top-level declaration keywords; only `lease` blocks
/// are part of the grammar.
#[derive(Debug, Clone, Copy, PartialEq, Eq, Structural)]
pub enum ConfigKeyword {
    Lease,
}

/// The canonical text of each declaration keyword.
pub open spec fn config_keyword_str(k: ConfigKeyword) -> Seq<char> {
    match k {
        ConfigKeyword::Lease => "lease"@,
    }
}

/// Which declaration keyword a word denotes, if any.
pub open spec fn config_keyword_of(s: Seq<char>) -> Option<ConfigKeyword> {
    if s == "lease"@ {
        Some(ConfigKeyword::Lease)
    } else {
        None
    }
}

impl ConfigKeyword {
    /// The keyword's canonical text.
    pub fn to_string(&self) -> (r: String)
        ensures
            r@ == config_keyword_str(*self),
    {
        match self {
            ConfigKeyword::Lease => String::from_str("lease"),
        }
    }

    /// Recognises a declaration keyword; any other word is reported as
    /// unrecognised, with the word as the payload.
    pub fn from(s: &str) -> (r: Result<ConfigKeyword, ParseError>)
        ensures
            match config_keyword_of(s@) {
                Some(k) => r matches Ok(got) && got == k,
                None => r matches Err(e) && e@ == ParseErrorView::UnrecognizedKeyword(s@),
            },
    {
        if crate::common::str_eq(s, "lease") {
            Ok(ConfigKeyword::Lease)
        } else {
            Err(ParseError::UnrecognizedKeyword(s.to_owned()))
        }
    }
}

/// The views of the leases, in file order.
pub open spec fn leases_views(s: Seq<Lease>) -> Seq<LeaseView> {
    s.map_values(|l: Lease| l@)
}

/// The whole grammar over a token stream: zero or more declarations, each
/// `lease <ip> { option* }`. The token after `lease` is taken verbatim as
/// the IP; the brace must follow, else `ExpectedToken`; the options are
/// read by [`spec_parse_opts`]; any token outside a declaration fails with
/// `UnexpectedToken`. The first error ends the parse with no leases.
pub open spec fn spec_parse_config(t: Seq<Token>) -> Result<Seq<LeaseView>, ParseErrorView>
    decreases t.len(),
{
    if t.len() == 0 {
        Ok(Seq::empty())
    } else {
        match t[0] {
            Token::Decl(kw) => {
                if t.len() < 3 || t[2] != Token::Paren('{') {
                    Err(ParseErrorView::ExpectedToken("{"@))
                } else {
                    match spec_parse_opts(spec_lease_init(token_text(t[1])), t.skip(3)) {
                        Err(e) => Err(e),
                        Ok((lv, n)) => {
                            let adv = 3 + n + 1;
                            let clamped: int = if adv < 1 {
                                1
                            } else if adv > t.len() {
                                t.len() as int
                            } else {
                                adv
                            };
                            match spec_parse_config(t.skip(clamped)) {
                                Err(e) => Err(e),
                                Ok(ls) => Ok(seq![lv] + ls),
                            }
                        },
                    }
                }
            },
            _ => Err(ParseErrorView::UnexpectedToken(token_text(t[0]))),
        }
    }
}

/// The first failure inside a lease block — an unparsable date among
/// them — ends the whole parse with that error: no leases are returned,
/// not even from the fields or declarations already read.
pub proof fn lemma_block_error_stops_parse(t: Seq<Token>, e: ParseErrorView)
    requires
        t.len() >= 3,
        t[0] is Decl,
        t[2] == Token::Paren('{'),
        spec_parse_opts(spec_lease_init(token_text(t[1])), t.skip(3)) == Err::<
            (LeaseView, int),
            ParseErrorView,
        >(e),
    ensures
        spec_parse_config(t) == Err::<Seq<LeaseView>, ParseErrorView>(e),
{
}

proof fn lemma_config_ips_nonempty(t: Seq<Token>)
    requires
        crate::lex::token_texts_nonempty(t),
    ensures
        spec_parse_config(t) matches Ok(ls) ==> forall|k: int|
            0 <= k < ls.len() ==> (#[trigger] ls[k].ip).len() > 0,
    decreases t.len(),
{
    if t.len() > 0 {
        match t[0] {
            Token::Decl(_) => {
                if t.len() >= 3 && t[2] == Token::Paren('{') {
                    let init = spec_lease_init(token_text(t[1]));
                    match spec_parse_opts(init, t.skip(3)) {
                        Ok((lv, n)) => {
                            crate::leases::lemma_parse_opts_keeps_ip(init, t.skip(3));
                            let adv = 3 + n + 1;
                            let clamped: int = if adv < 1 {
                                1
                            } else if adv > t.len() {
                                t.len() as int
                            } else {
                                adv
                            };
                            assert(crate::lex::token_texts_nonempty(t.skip(clamped))) by {
                                assert forall|i: int|
                                    0 <= i < t.skip(clamped).len() implies token_text(
                                    #[trigger] t.skip(clamped)[i],
                                ).len() > 0 by {
                                    assert(t.skip(clamped)[i] == t[clamped + i]);
                                    assert(token_text(t[clamped + i]).len() > 0);
                                }
                            }
                            lemma_config_ips_nonempty(t.skip(clamped));
                        },
                        Err(_) => {
                        },
                    }
                }
            },
            _ => {
            },
        }
    }
}

/// After a successful parse every lease's IP is a non-empty token taken
/// verbatim from the input: the lexer emits no empty token, and no option
/// statement touches the IP that the declaration set.
pub proof fn lemma_parsed_ips_nonempty(s: Seq<char>)
    ensures
        spec_parse(s) matches Ok(ls) ==> forall|k: int|
            0 <= k < ls.len() ==> (#[trigger] ls[k].ip).len() > 0,
{
    crate::lex::lemma_lex_texts_nonempty(s);
    lemma_config_ips_nonempty(spec_lex(s));
}

/// The result of a successful parse: the populated, order-preserving
/// lease collection.
#[derive(Debug)]
pub struct ParserResult {
    pub leases: Leases,
}

fn parse_config(tokens: Vec<LexItem>) -> (r: Result<ParserResult, ParseError>)
    ensures
        match spec_parse_config(tokens.deep_view()) {
            Ok(ls) => r matches Ok(pr) && leases_views(pr.leases@) == ls,
            Err(e) => r matches Err(pe) && pe@ == e,
        },
{
    let ghost tv = tokens.deep_view();
    let mut leases = Leases::new();
    let n_toks = tokens.len();
    let mut pos: usize = 0;
    proof {
        assert(tv.skip(0) =~= tv);
        assert(leases_views(leases@) =~= Seq::<LeaseView>::empty());
    }
    while pos < n_toks
        invariant
            n_toks == tokens@.len(),
            tv == tokens.deep_view(),
            pos <= n_toks,
            match spec_parse_config(tv.skip(pos as int)) {
                Ok(ls) => spec_parse_config(tv) == Ok::<Seq<LeaseView>, ParseErrorView>(
                    leases_views(leases@) + ls,
                ),
                Err(e) => spec_parse_config(tv) == Err::<Seq<LeaseView>, ParseErrorView>(e),
            },
        decreases n_toks - pos,
    {
        let ghost rest = tv.skip(pos as int);
        proof {
            assert(rest[0] == tv[pos as int]);
        }
        let tok = &tokens[pos];
        match tok {
            LexItem::Decl(ConfigKeyword::Lease) => {
                if n_toks - pos < 3 {
                    return Err(ParseError::ExpectedToken(String::from_str("{")));
                }
                let brace_ok = match &tokens[pos + 2] {
                    LexItem::Paren(c) => *c == '{',
                    _ => false,
                };
                if !brace_ok {
                    return Err(ParseError::ExpectedToken(String::from_str("{")));
                }
                let mut lease = Lease::new();
                lease.ip = tokens[pos + 1].to_string();
                proof {
                    assert(lease@ =~= spec_lease_init(token_text(rest[1])));
                    assert(rest.skip(3) =~= tv.skip(pos + 3));
                }
                let mut inner_pos: usize = pos + 3;
                match parse_lease(&mut lease, &tokens, &mut inner_pos) {
                    Err(e) => {
                        return Err(e);
                    },
                    Ok(_) => {
                        let ghost pre = leases_views(leases@);
                        let ghost lv = lease@;
                        proof {
                            lemma_parse_opts_ok(spec_lease_init(token_text(rest[1])), rest.skip(3));
                            assert(rest.skip(3 + (inner_pos - pos - 3) + 1) =~= tv.skip(inner_pos + 1));
                            assert(leases_views(leases@.push(lease)) =~= pre.push(lv));
                        }
                        leases.push(lease);
                        proof {
                            match spec_parse_config(tv.skip(inner_pos + 1)) {
                                Ok(ls) => {
                                    assert(pre + (seq![lv] + ls) =~= leases_views(leases@) + ls);
                                },
                                Err(_) => {
                                },
                            }
                        }
                        pos = inner_pos + 1;
                    },
                }
            },
            _ => {
                return Err(ParseError::UnexpectedToken(tok.to_string()));
            },
        }
    }
    proof {
        assert(tv.skip(n_toks as int) =~= Seq::<Token>::empty());
    }
    Ok(ParserResult { leases })
}

/// What parsing a whole text returns: the grammar applied to the lexer's
/// token stream.
pub open spec fn spec_parse(s: Seq<char>) -> Result<Seq<LeaseView>, ParseErrorView> {
    spec_parse_config(spec_lex(s))
}

/// Parses a lease database text into the lease collection in file order,
/// or the first error; on an error no leases are returned at all.
pub fn parse(input: String) -> (r: Result<ParserResult, ParseError>)
    ensures
        match spec_parse(input@) {
            Ok(ls) => r matches Ok(pr) && leases_views(pr.leases@) == ls,
            Err(e) => r matches Err(pe) && pe@ == e,
        },
{
    let tokens = lex(input).unwrap();
    parse_config(tokens)
}

} // verus!
