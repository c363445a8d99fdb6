//! Tokenizer for the template language.
//!
//! A template is a run of literal text interleaved with variable
//! references. A reference is delimited by `{{` and `}}`; inside it,
//! spaces are ignored and `.` separates the segments of a hierarchical
//! variable name. An empty segment (a leading, trailing or doubled dot,
//! or empty braces) is a hard parse failure. A `{{` that is never
//! closed is treated as literal text.

use vstd::prelude::*;
use crate::strutil::{chars_range, str_to_chars};
use crate::template::Variable;

verus! {

/// Spec-level image of a token: either a variable reference, given by
/// the segments of its name, or a run of literal text.
pub enum TokenModel {
    Variable(Seq<Seq<char>>),
    Str(Seq<char>),
}

/// A tokenization failure.
#[derive(Debug, Clone, PartialEq, Eq)]
pub enum Error {
    /// A variable segment between `{{` and `}}` was empty. The offset
    /// is relative to the character after the opening `{{`.
    EmptyVariableSegment { offset: usize },
}

impl View for Error {
    type V = int;

    open spec fn view(&self) -> int {
        match self {
            Error::EmptyVariableSegment { offset } => *offset as int,
        }
    }
}

/// One token of a template.
#[derive(Debug, Clone, PartialEq, Eq)]
pub enum Token {
    Variable(Variable),
    Str(String),
}

impl View for Token {
    type V = TokenModel;

    open spec fn view(&self) -> TokenModel {
        match self {
            Token::Variable(v) => TokenModel::Variable(v@),
            Token::Str(s) => TokenModel::Str(s@),
        }
    }
}

/// The views of a sequence of tokens.
pub open spec fn token_models(ts: Seq<Token>) -> Seq<TokenModel> {
    ts.map(|i: int, t: Token| t@)
}

/// One step of the scanner for the inside of a variable reference,
/// positioned at `head` with the partial segment `buf` and the
/// completed segments `segs`. Returns `None` if the input ends before
/// a closing `}}`, and otherwise the segments and the number of
/// characters consumed (including the `}}`), or the offset of an empty
/// segment.
pub open spec fn inner_step(s: Seq<char>, head: int, buf: Seq<char>, segs: Seq<Seq<char>>) -> Option<
    Result<(Seq<Seq<char>>, int), int>,
>
    decreases s.len() - head,
{
    if head < 0 || head >= s.len() {
        None
    } else if head + 1 < s.len() && s[head] == '}' && s[head + 1] == '}' {
        if buf.len() == 0 {
            Some(Err(head))
        } else {
            Some(Ok((segs.push(buf), head + 2)))
        }
    } else if s[head] == '.' {
        if buf.len() == 0 {
            Some(Err(head))
        } else {
            inner_step(s, head + 1, Seq::empty(), segs.push(buf))
        }
    } else if s[head] == ' ' {
        inner_step(s, head + 1, buf, segs)
    } else {
        inner_step(s, head + 1, buf.push(s[head]), segs)
    }
}

/// What scanning the inside of a variable reference yields on `s`,
/// where `s` starts right after the opening `{{`.
pub open spec fn spec_parse_inner(s: Seq<char>) -> Option<Result<(Seq<Seq<char>>, int), int>> {
    inner_step(s, 0, Seq::empty(), Seq::empty())
}

/// A successful inner scan consumes at least the closing `}}` and at
/// most the whole input.
pub proof fn lemma_inner_step_consumed(s: Seq<char>, head: int, buf: Seq<char>, segs: Seq<Seq<char>>)
    requires
        0 <= head <= s.len(),
    ensures
        match inner_step(s, head, buf, segs) {
            Some(Ok((_, consumed))) => head + 2 <= consumed <= s.len(),
            Some(Err(off)) => head <= off < s.len(),
            None => true,
        },
    decreases s.len() - head,
{
    if head >= s.len() {
    } else if head + 1 < s.len() && s[head] == '}' && s[head + 1] == '}' {
    } else if s[head] == '.' {
        if buf.len() != 0 {
            lemma_inner_step_consumed(s, head + 1, Seq::empty(), segs.push(buf));
        }
    } else if s[head] == ' ' {
        lemma_inner_step_consumed(s, head + 1, buf, segs);
    } else {
        lemma_inner_step_consumed(s, head + 1, buf.push(s[head]), segs);
    }
}

/// Scans the inside of a variable reference. `input` starts right
/// after the opening `{{`. Returns `None` if the reference is never
/// closed, and otherwise the segments of the variable name and the
/// number of characters consumed, or the empty-segment error.
pub fn parse_template_inner(input: &[char]) -> (r: Option<Result<(Vec<String>, usize), Error>>)
    ensures
        match r {
            None => spec_parse_inner(input@) is None,
            Some(Ok((segs, consumed))) => spec_parse_inner(input@) == Some(
                Ok::<_, int>((segs.deep_view(), consumed as int)),
            ),
            Some(Err(e)) => spec_parse_inner(input@) == Some(Err::<(Seq<Seq<char>>, int), _>(e@)),
        },
{
    let n = input.len();
    let mut head: usize = 0;
    let mut segments: Vec<String> = Vec::new();
    let mut buf = String::new();
    proof {
        assert(segments.deep_view() =~= Seq::<Seq<char>>::empty());
    }
    while head < n
        invariant
            n == input@.len(),
            head <= n,
            spec_parse_inner(input@) == inner_step(input@, head as int, buf@, segments.deep_view()),
        decreases n - head,
    {
        if head + 1 < n && input[head] == '}' && input[head + 1] == '}' {
            if buf.as_str().is_empty() {
                return Some(Err(Error::EmptyVariableSegment { offset: head }));
            } else {
                let ghost old_segs = segments.deep_view();
                let ghost bv = buf@;
                segments.push(buf);
                proof {
                    assert(segments.deep_view() =~= old_segs.push(bv));
                }
                return Some(Ok((segments, head + 2)));
            }
        }
        let c = input[head];
        if c == '.' {
            if buf.as_str().is_empty() {
                return Some(Err(Error::EmptyVariableSegment { offset: head }));
            } else {
                let ghost old_segs = segments.deep_view();
                let done = buf;
                let ghost bv = done@;
                buf = String::new();
                segments.push(done);
                proof {
                    assert(segments.deep_view() =~= old_segs.push(bv));
                }
            }
        } else if c == ' ' {
        } else {
            buf.push(c);
        }
        head = head + 1;
    }
    None
}

/// One step of the tokenizer at position `head`, with the pending
/// literal run `strbuf` and the tokens already produced. A `{{` starts
/// a variable reference if one is closed by `}}` before the input
/// ends; otherwise the characters are literal text.
pub open spec fn tok_step(s: Seq<char>, head: int, strbuf: Seq<char>, acc: Seq<TokenModel>) -> Result<
    Seq<TokenModel>,
    int,
>
    decreases s.len() - head,
{
    if head < 0 || head >= s.len() {
        if strbuf.len() == 0 {
            Ok(acc)
        } else {
            Ok(acc.push(TokenModel::Str(strbuf)))
        }
    } else if head == s.len() - 1 {
        Ok(acc.push(TokenModel::Str(strbuf.push(s[head]))))
    } else if s[head] == '{' && s[head + 1] == '{' {
        match spec_parse_inner(s.skip(head + 2)) {
            Some(Ok((segs, consumed))) => {
                let jump = if 0 <= consumed <= s.len() - head - 2 {
                    consumed
                } else {
                    0
                };
                let acc2 = if strbuf.len() == 0 {
                    acc
                } else {
                    acc.push(TokenModel::Str(strbuf))
                };
                tok_step(s, head + 2 + jump, Seq::empty(), acc2.push(TokenModel::Variable(segs)))
            },
            Some(Err(off)) => Err(off),
            None => tok_step(s, head + 1, strbuf.push(s[head]), acc),
        }
    } else {
        tok_step(s, head + 1, strbuf.push(s[head]), acc)
    }
}

/// What tokenizing a whole template yields: its tokens, or the offset
/// of an empty variable segment (relative to the character after the
/// opening `{{` of the failing reference).
pub open spec fn spec_tokenize(s: Seq<char>) -> Result<Seq<TokenModel>, int> {
    tok_step(s, 0, Seq::empty(), Seq::empty())
}

/// Splits a template into literal and variable tokens.
pub fn tokenize(input: &str) -> (r: Result<Vec<Token>, Error>)
    ensures
        match r {
            Ok(tokens) => spec_tokenize(input@) == Ok::<_, int>(token_models(tokens@)),
            Err(e) => spec_tokenize(input@) == Err::<Seq<TokenModel>, _>(e@),
        },
{
    let chars = str_to_chars(input);
    let n = chars.len();
    let mut tokens: Vec<Token> = Vec::new();
    let mut strbuf = String::new();
    let mut head: usize = 0;
    proof {
        assert(token_models(tokens@) =~= Seq::<TokenModel>::empty());
    }
    while head < n
        invariant
            n == input@.len(),
            chars@ == input@,
            head <= n,
            spec_tokenize(input@) == tok_step(
                input@,
                head as int,
                strbuf@,
                token_models(tokens@),
            ),
        decreases n - head,
    {
        if head == n - 1 {
            strbuf.push(chars[head]);
            let ghost old_models = token_models(tokens@);
            let ghost bv = strbuf@;
            tokens.push(Token::Str(strbuf));
            proof {
                assert(token_models(tokens@) =~= old_models.push(TokenModel::Str(bv)));
            }
            return Ok(tokens);
        }
        if chars[head] == '{' && chars[head + 1] == '{' {
            let rest = chars_range(chars.as_slice(), head + 2, n);
            proof {
                assert(rest@ =~= input@.skip(head + 2));
            }
            match parse_template_inner(rest) {
                Some(Ok((segs, consumed))) => {
                    proof {
                        lemma_inner_step_consumed(rest@, 0, Seq::empty(), Seq::empty());
                    }
                    if !strbuf.as_str().is_empty() {
                        let lit = strbuf;
                        let ghost lv = lit@;
                        strbuf = String::new();
                        let ghost old_models = token_models(tokens@);
                        tokens.push(Token::Str(lit));
                        proof {
                            assert(token_models(tokens@) =~= old_models.push(TokenModel::Str(lv)));
                        }
                    } else {
                        proof {
                            assert(strbuf@ =~= Seq::<char>::empty());
                        }
                    }
                    let ghost old_models = token_models(tokens@);
                    let ghost sv = segs.deep_view();
                    let var = Variable::new(segs);
                    tokens.push(Token::Variable(var));
                    proof {
                        assert(token_models(tokens@) =~= old_models.push(TokenModel::Variable(sv)));
                    }
                    head = head + 2 + consumed;
                },
                Some(Err(e)) => {
                    return Err(e);
                },
                None => {
                    strbuf.push(chars[head]);
                    head = head + 1;
                },
            }
        } else {
            strbuf.push(chars[head]);
            head = head + 1;
        }
    }
    if !strbuf.as_str().is_empty() {
        let ghost old_models = token_models(tokens@);
        let ghost bv = strbuf@;
        tokens.push(Token::Str(strbuf));
        proof {
            assert(token_models(tokens@) =~= old_models.push(TokenModel::Str(bv)));
        }
    }
    Ok(tokens)
}

} // verus!
