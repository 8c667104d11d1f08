//! Splits one line of the configuration into tokens.

use vstd::prelude::*;

use crate::text::{
    copy_range, is_punct, is_punct_char, is_space, is_space_char, is_word, is_word_char, lemma_run_len,
    run_len,
};

verus! {

/// A token as a mathematical value.
pub enum TokV {
    Word(Seq<char>),
    Quoted(Seq<char>),
    Punct(char),
}

/// A token of a line: a bare word, the text between two double quotes, or
/// one of the characters `[ ] = , : ; { }`.
#[derive(Debug)]
pub enum Token {
    Word(Vec<char>),
    Quoted(Vec<char>),
    Punct(char),
}

impl View for Token {
    type V = TokV;

    open spec fn view(&self) -> TokV {
        match self {
            Token::Word(w) => TokV::Word(w@),
            Token::Quoted(q) => TokV::Quoted(q@),
            Token::Punct(c) => TokV::Punct(*c),
        }
    }
}

pub open spec fn toks_view(t: Seq<Token>) -> Seq<TokV> {
    t.map_values(|x: Token| x@)
}

pub open spec fn word_pred() -> spec_fn(char) -> bool {
    |c: char| is_word_char(c)
}

pub open spec fn not_quote_pred() -> spec_fn(char) -> bool {
    |c: char| c != '"'
}

pub open spec fn prepend(x: TokV, r: Option<Seq<TokV>>) -> Option<Seq<TokV>> {
    match r {
        Some(t) => Some(seq![x] + t),
        None => None,
    }
}

pub proof fn lemma_run_len_le(s: Seq<char>, p: spec_fn(char) -> bool)
    ensures
        run_len(s, p) <= s.len(),
    decreases s.len(),
{
    if s.len() > 0 && p(s[0]) {
        lemma_run_len_le(s.drop_first(), p);
    }
}

/// The tokens of a line, or `None` when the line holds a character that
/// starts no token or a double quote that is never closed. Blanks
/// (space, tab, carriage return) separate tokens; `#` starts a comment that
/// runs to the end of the line.
pub open spec fn lex(s: Seq<char>) -> Option<Seq<TokV>>
    decreases s.len(),
{
    if s.len() == 0 {
        Some(seq![])
    } else {
        let c = s[0];
        if is_space(c) {
            lex(s.drop_first())
        } else if c == '#' {
            Some(seq![])
        } else if is_punct(c) {
            prepend(TokV::Punct(c), lex(s.drop_first()))
        } else if c == '"' {
            let n = run_len(s.drop_first(), not_quote_pred());
            proof {
                lemma_run_len_le(s.drop_first(), not_quote_pred());
            }
            if n + 1 < s.len() {
                prepend(TokV::Quoted(s.subrange(1, n + 1 as int)), lex(s.skip(n + 2 as int)))
            } else {
                None
            }
        } else if is_word_char(c) {
            let n = run_len(s, word_pred());
            proof {
                lemma_run_len_le(s, word_pred());
            }
            prepend(TokV::Word(s.take(n as int)), lex(s.skip(n as int)))
        } else {
            None
        }
    }
}

pub open spec fn concat_opt(x: Seq<TokV>, r: Option<Seq<TokV>>) -> Option<Seq<TokV>> {
    match r {
        Some(t) => Some(x + t),
        None => None,
    }
}

pub open spec fn opt_toks_view(r: Option<Vec<Token>>) -> Option<Seq<TokV>> {
    match r {
        Some(t) => Some(toks_view(t@)),
        None => None,
    }
}

/// Tokenizes one line.
pub fn lex_line(line: &Vec<char>) -> (r: Option<Vec<Token>>)
    ensures
        opt_toks_view(r) == lex(line@),
{
    let n = line.len();
    let mut out: Vec<Token> = Vec::new();
    let mut i: usize = 0;
    assert(line@.skip(0) =~= line@);
    while i < n
        invariant
            n == line.len(),
            i <= n,
            lex(line@) == concat_opt(toks_view(out@), lex(line@.skip(i as int))),
        decreases n - i,
    {
        let ghost s = line@.skip(i as int);
        let ghost before = toks_view(out@);
        let c = line[i];
        assert(s[0] == c);
        if is_space_char(c) {
            assert(s.drop_first() =~= line@.skip(i + 1));
            i = i + 1;
        } else if c == '#' {
            assert(lex(s) == Some(Seq::<TokV>::empty()));
            assert(before + Seq::<TokV>::empty() =~= before);
            return Some(out);
        } else if is_punct_char(c) {
            assert(s.drop_first() =~= line@.skip(i + 1));
            out.push(Token::Punct(c));
            i = i + 1;
            assert(toks_view(out@) =~= before.push(TokV::Punct(c)));
            assert(concat_opt(before, prepend(TokV::Punct(c), lex(line@.skip(i as int))))
                == concat_opt(toks_view(out@), lex(line@.skip(i as int)))) by {
                match lex(line@.skip(i as int)) {
                    Some(t) => {
                        assert(before + (seq![TokV::Punct(c)] + t) =~= toks_view(out@) + t);
                    },
                    None => {},
                }
            }
        } else if c == '"' {
            let mut j = i + 1;
            while j < n && line[j] != '"'
                invariant
                    i < j <= n,
                    n == line.len(),
                    forall|k: int| i + 1 <= k < j ==> line@[k] != '"',
                decreases n - j,
            {
                j = j + 1;
            }
            proof {
                assert(forall|k: int| i + 1 <= k < j ==> #[trigger] not_quote_pred()(line@[k]));
                lemma_run_len(line@, not_quote_pred(), i + 1, j as int);
                assert(s.drop_first() =~= line@.skip(i + 1));
            }
            if j == n {
                return None;
            }
            let q = copy_range(line, i + 1, j);
            assert(q@ =~= s.subrange(1, (j - i) as int));
            assert(s.skip((j - i + 1) as int) =~= line@.skip(j + 1));
            out.push(Token::Quoted(q));
            i = j + 1;
            assert(toks_view(out@) =~= before.push(TokV::Quoted(q@)));
            assert(concat_opt(before, prepend(TokV::Quoted(q@), lex(line@.skip(i as int))))
                == concat_opt(toks_view(out@), lex(line@.skip(i as int)))) by {
                match lex(line@.skip(i as int)) {
                    Some(t) => {
                        assert(before + (seq![TokV::Quoted(q@)] + t) =~= toks_view(out@) + t);
                    },
                    None => {},
                }
            }
        } else if is_word(c) {
            let mut j = i + 1;
            while j < n && is_word(line[j])
                invariant
                    i < j <= n,
                    n == line.len(),
                    forall|k: int| i <= k < j ==> is_word_char(line@[k]),
                decreases n - j,
            {
                j = j + 1;
            }
            proof {
                assert(forall|k: int| i <= k < j ==> #[trigger] word_pred()(line@[k]));
                lemma_run_len(line@, word_pred(), i as int, j as int);
            }
            let w = copy_range(line, i, j);
            assert(w@ =~= s.take((j - i) as int));
            assert(s.skip((j - i) as int) =~= line@.skip(j as int));
            out.push(Token::Word(w));
            i = j;
            assert(toks_view(out@) =~= before.push(TokV::Word(w@)));
            assert(concat_opt(before, prepend(TokV::Word(w@), lex(line@.skip(i as int))))
                == concat_opt(toks_view(out@), lex(line@.skip(i as int)))) by {
                match lex(line@.skip(i as int)) {
                    Some(t) => {
                        assert(before + (seq![TokV::Word(w@)] + t) =~= toks_view(out@) + t);
                    },
                    None => {},
                }
            }
        } else {
            return None;
        }
    }
    assert(line@.skip(n as int) =~= Seq::<char>::empty());
    assert(toks_view(out@) + Seq::<TokV>::empty() =~= toks_view(out@));
    Some(out)
}

} // verus!
