//! What lines of the configuration mean, character for character: a bare
//! word or a quoted text reads as exactly its characters, blanks only
//! separate, a header `[name]` opens the task `name`, and a `select`, `use`,
//! `depends_on` or `properties` line carries its values unchanged.

use vstd::prelude::*;

use super::grammar::{line_of, CommandV, LineV};
use super::lexer::{lex, not_quote_pred, prepend, word_pred, TokV};
use crate::text::{is_punct, is_space, is_word_char, lemma_run_len};

verus! {

/// A bare word: at least one character, each a word character.
pub open spec fn bare_word(w: Seq<char>) -> bool {
    w.len() > 0 && forall|i: int| 0 <= i < w.len() ==> is_word_char(#[trigger] w[i])
}

/// A word reads as one word token of exactly its characters, up to the next
/// character that cannot continue it.
pub proof fn lemma_lex_word(w: Seq<char>, rest: Seq<char>)
    requires
        bare_word(w),
        rest.len() == 0 || !is_word_char(rest[0]),
    ensures
        lex(w + rest) == prepend(TokV::Word(w), lex(rest)),
{
    let s = w + rest;
    assert(s[0] == w[0]);
    assert forall|k: int| 0 <= k < w.len() implies #[trigger] word_pred()(s[k]) by {
        assert(s[k] == w[k]);
    }
    if rest.len() > 0 {
        assert(s[w.len() as int] == rest[0]);
    }
    lemma_run_len(s, word_pred(), 0, w.len() as int);
    assert(s.skip(0) =~= s);
    assert(s.take(w.len() as int) =~= w);
    assert(s.skip(w.len() as int) =~= rest);
}

/// A quoted text reads as one token of exactly the characters between the
/// quotes.
pub proof fn lemma_lex_quoted(q: Seq<char>, rest: Seq<char>)
    requires
        forall|i: int| 0 <= i < q.len() ==> #[trigger] q[i] != '"',
    ensures
        lex(seq!['"'] + q + seq!['"'] + rest) == prepend(TokV::Quoted(q), lex(rest)),
{
    let s = seq!['"'] + q + seq!['"'] + rest;
    let t = s.drop_first();
    assert(t =~= q + seq!['"'] + rest);
    assert forall|k: int| 0 <= k < q.len() implies #[trigger] not_quote_pred()(t[k]) by {
        assert(t[k] == q[k]);
    }
    assert(t[q.len() as int] == '"');
    lemma_run_len(t, not_quote_pred(), 0, q.len() as int);
    assert(t.skip(0) =~= t);
    assert(s.subrange(1, q.len() + 1int) =~= q);
    assert(s.skip(q.len() + 2int) =~= rest);
}

/// A punctuation character reads as its own token.
pub proof fn lemma_lex_punct(c: char, rest: Seq<char>)
    requires
        is_punct(c),
    ensures
        lex(seq![c] + rest) == prepend(TokV::Punct(c), lex(rest)),
{
    assert((seq![c] + rest).drop_first() =~= rest);
}

/// A blank only separates tokens.
pub proof fn lemma_lex_blank(c: char, rest: Seq<char>)
    requires
        is_space(c),
    ensures
        lex(seq![c] + rest) == lex(rest),
{
    assert((seq![c] + rest).drop_first() =~= rest);
}

/// The line `[name]` opens the task `name`.
pub proof fn lemma_header_line(name: Seq<char>)
    requires
        bare_word(name),
    ensures
        line_of(seq!['['] + name + seq![']']) == Some(LineV::Header(name)),
{
    let close = seq![']'];
    lemma_lex_punct(']', Seq::empty());
    assert(close =~= seq![']'] + Seq::<char>::empty());
    lemma_lex_word(name, close);
    lemma_lex_punct('[', name + close);
    assert(seq!['['] + name + close =~= seq!['['] + (name + close));
}

/// The line `keyword = value` for a bare keyword and a bare value.
proof fn lemma_keyword_line(kw: Seq<char>, v: Seq<char>)
    requires
        bare_word(kw),
        bare_word(v),
    ensures
        lex(kw + seq![' ', '=', ' '] + v) == Some(seq![TokV::Word(kw), TokV::Punct('='), TokV::Word(v)]),
{
    lemma_lex_word(v, Seq::empty());
    assert(v + Seq::<char>::empty() =~= v);
    lemma_lex_blank(' ', v);
    lemma_lex_punct('=', seq![' '] + v);
    lemma_lex_blank(' ', seq!['='] + (seq![' '] + v));
    let rest = seq![' '] + (seq!['='] + (seq![' '] + v));
    assert(rest =~= seq![' ', '=', ' '] + v);
    lemma_lex_word(kw, rest);
    assert(kw + seq![' ', '=', ' '] + v =~= kw + rest);
    assert(seq![TokV::Word(kw)] + (seq![TokV::Punct('=')] + seq![TokV::Word(v)]) =~= seq![
        TokV::Word(kw),
        TokV::Punct('='),
        TokV::Word(v),
    ]);
}

/// A single token other than a comma is one piece when split at commas.
proof fn lemma_split_single(x: TokV)
    requires
        x != TokV::Punct(','),
    ensures
        crate::text::split_on(seq![x], TokV::Punct(',')) == seq![seq![x]],
{
    let s = seq![x];
    assert(s.drop_last() =~= Seq::<TokV>::empty());
    assert(s.last() == x);
    let prev = crate::text::split_on(s.drop_last(), TokV::Punct(','));
    assert(prev == seq![Seq::<TokV>::empty()]);
    assert(prev.update(0, prev.last().push(x)) =~= seq![seq![x]]);
}

/// `select = v` sets the chain name to exactly `v`, and `use = v` the
/// method name.
pub proof fn lemma_select_and_use_lines(v: Seq<char>)
    requires
        bare_word(v),
    ensures
        line_of(seq!['s', 'e', 'l', 'e', 'c', 't'] + seq![' ', '=', ' '] + v) == Some(
            LineV::Command(CommandV::Select(v)),
        ),
        line_of(seq!['u', 's', 'e'] + seq![' ', '=', ' '] + v) == Some(LineV::Command(CommandV::Use(v))),
{
    let sel = seq!['s', 'e', 'l', 'e', 'c', 't'];
    let us = seq!['u', 's', 'e'];
    assert(bare_word(sel));
    assert(bare_word(us));
    lemma_keyword_line(sel, v);
    lemma_keyword_line(us, v);
    let t1 = seq![TokV::Word(sel), TokV::Punct('='), TokV::Word(v)];
    assert(t1.skip(2) =~= seq![TokV::Word(v)]);
    let t2 = seq![TokV::Word(us), TokV::Punct('='), TokV::Word(v)];
    assert(t2.skip(2) =~= seq![TokV::Word(v)]);
    lemma_split_single(TokV::Word(v));
}

/// `depends_on = u` makes the task depend on exactly `u`.
pub proof fn lemma_depends_on_line(u: Seq<char>)
    requires
        bare_word(u),
    ensures
        line_of(seq!['d', 'e', 'p', 'e', 'n', 'd', 's', '_', 'o', 'n'] + seq![' ', '=', ' '] + u) == Some(
            LineV::Command(CommandV::DependsOn(seq![u])),
        ),
{
    let kw = seq!['d', 'e', 'p', 'e', 'n', 'd', 's', '_', 'o', 'n'];
    assert(bare_word(kw));
    lemma_keyword_line(kw, u);
    let t = seq![TokV::Word(kw), TokV::Punct('='), TokV::Word(u)];
    assert(t.skip(2) =~= seq![TokV::Word(u)]);
    lemma_split_single(TokV::Word(u));
    let segs = seq![seq![TokV::Word(u)]];
    assert(segs.drop_last() =~= Seq::<Seq<TokV>>::empty());
    assert(segs.last() == seq![TokV::Word(u)]);
    assert(super::grammar::word_fn()(segs.last()) == Some(u));
    assert(super::grammar::all_map(segs.drop_last(), super::grammar::word_fn()) == Some(Seq::<Seq<char>>::empty()));
    assert(Seq::<Seq<char>>::empty().push(u) =~= seq![u]);
}

/// Tokens without a comma are one piece when split at commas.
proof fn lemma_split_no_comma(t: Seq<TokV>)
    requires
        forall|i: int| 0 <= i < t.len() ==> #[trigger] t[i] != TokV::Punct(','),
    ensures
        crate::text::split_on(t, TokV::Punct(',')) == seq![t],
    decreases t.len(),
{
    if t.len() > 0 {
        let prev = t.drop_last();
        assert forall|i: int| 0 <= i < prev.len() implies #[trigger] prev[i] != TokV::Punct(',') by {
            assert(prev[i] == t[i]);
        }
        lemma_split_no_comma(prev);
        assert(t[t.len() - 1] == t.last());
        assert(prev.push(t.last()) =~= t);
        let ps = seq![prev];
        assert(ps.len() - 1 == 0 && ps.last() == prev);
        assert(ps.update(0, t) =~= seq![t]);
    } else {
        assert(t =~= Seq::<TokV>::empty());
    }
}

/// `properties = name: "text"` gives the task the property `name` with
/// exactly the quoted text as its value.
pub proof fn lemma_properties_line(k: Seq<char>, q: Seq<char>)
    requires
        bare_word(k),
        forall|i: int| 0 <= i < q.len() ==> #[trigger] q[i] != '"',
    ensures
        line_of(
            seq!['p', 'r', 'o', 'p', 'e', 'r', 't', 'i', 'e', 's'] + seq![' ', '=', ' '] + k + seq![':', ' ', '"'] + q
                + seq!['"'],
        ) == Some(LineV::Command(CommandV::Properties(seq![(k, q)]))),
{
    let kw = seq!['p', 'r', 'o', 'p', 'e', 'r', 't', 'i', 'e', 's'];
    assert(bare_word(kw));
    let e = Seq::<char>::empty();
    lemma_lex_quoted(q, e);
    let quoted = seq!['"'] + q + seq!['"'] + e;
    lemma_lex_blank(' ', quoted);
    lemma_lex_punct(':', seq![' '] + quoted);
    let after_k = seq![':'] + (seq![' '] + quoted);
    lemma_lex_word(k, after_k);
    lemma_lex_blank(' ', k + after_k);
    lemma_lex_punct('=', seq![' '] + (k + after_k));
    lemma_lex_blank(' ', seq!['='] + (seq![' '] + (k + after_k)));
    let rest = seq![' '] + (seq!['='] + (seq![' '] + (k + after_k)));
    lemma_lex_word(kw, rest);
    let line = kw + seq![' ', '=', ' '] + k + seq![':', ' ', '"'] + q + seq!['"'];
    assert(line =~= kw + rest);
    let toks = seq![TokV::Word(kw), TokV::Punct('='), TokV::Word(k), TokV::Punct(':'), TokV::Quoted(q)];
    assert(lex(line) == Some(toks)) by {
        assert(seq![TokV::Word(kw)] + (seq![TokV::Punct('=')] + (seq![TokV::Word(k)] + (seq![TokV::Punct(':')] + (
        seq![TokV::Quoted(q)] + Seq::<TokV>::empty())))) =~= toks);
    }
    let body = toks.skip(2);
    assert(body =~= seq![TokV::Word(k), TokV::Punct(':'), TokV::Quoted(q)]);
    lemma_split_no_comma(body);
    let segs = seq![body];
    assert(segs.drop_last() =~= Seq::<Seq<TokV>>::empty());
    assert(segs.last() == body);
    assert(super::grammar::property_fn()(body) == Some((k, q)));
    assert(super::grammar::all_map(segs.drop_last(), super::grammar::property_fn()) == Some(
        Seq::<(Seq<char>, Seq<char>)>::empty(),
    ));
    assert(Seq::<(Seq<char>, Seq<char>)>::empty().push((k, q)) =~= seq![(k, q)]);
}

} // verus!
