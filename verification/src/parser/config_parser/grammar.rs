//! The line grammar of the configuration file.
//!
//! A file is a sequence of lines. A line is blank (only blanks or a `#`
//! comment), a task header `[name]`, or a command `keyword = ...` that belongs
//! to the task of the nearest header above it:
//!
//! ```text
//! [fetch]
//! depends_on = setup, login
//! select = ethereum
//! use = eth_getBalance
//! properties = url: "https://rpc.example", retries: 3
//! method_params = list, string = "0xabc", number = 42, {to: string = "0x1"; ids: list_of_number = 1 2 3}
//! ```

use vstd::prelude::*;

use crate::parser::config_parser::lexer::{lex, lex_line, opt_toks_view, toks_view, TokV, Token};
use crate::text::{chars_eq, chars_of, lemma_split_on_nonempty, split_lines, split_on, string_of};

verus! {

// ---------------------------------------------------------------------------
// Syntax trees as mathematical values
// ---------------------------------------------------------------------------
/// `name: type = v1 v2 ...` inside an object parameter.
pub struct FieldV {
    pub name: Seq<char>,
    pub ty: Seq<char>,
    pub values: Seq<Seq<char>>,
}

/// One parameter of `method_params`.
pub enum ParamV {
    Scalar { ty: Seq<char>, value: Seq<char> },
    Object(Seq<FieldV>),
}

/// One command line of a task body.
pub enum CommandV {
    DependsOn(Seq<Seq<char>>),
    Select(Seq<char>),
    Use(Seq<char>),
    Properties(Seq<(Seq<char>, Seq<char>)>),
    MethodParams { kind: Seq<char>, params: Seq<ParamV> },
}

pub enum LineV {
    Blank,
    Header(Seq<char>),
    Command(CommandV),
}

/// A task: its name and the commands of its body, in order.
pub struct DeclV {
    pub name: Seq<char>,
    pub commands: Seq<CommandV>,
}

// ---------------------------------------------------------------------------
// Syntax trees as data
// ---------------------------------------------------------------------------
#[derive(Debug)]
pub struct ObjectField {
    pub name: String,
    pub ty: String,
    pub values: Vec<String>,
}

#[derive(Debug)]
pub enum MethodParam {
    Scalar { ty: String, value: String },
    Object(Vec<ObjectField>),
}

#[derive(Debug)]
pub enum Command {
    DependsOn(Vec<String>),
    Select(String),
    Use(String),
    Properties(Vec<(String, String)>),
    MethodParams { kind: String, params: Vec<MethodParam> },
}

#[derive(Debug)]
pub struct TaskDeclaration {
    pub name: String,
    pub commands: Vec<Command>,
}

/// A parsed configuration file: its tasks in the order of their headers.
#[derive(Debug)]
pub struct ConfigFile {
    pub tasks: Vec<TaskDeclaration>,
}

/// The configuration text does not follow the grammar; `line` (counted from
/// 1) is the first line that breaks it.
#[derive(Debug)]
pub struct ParseError {
    pub line: usize,
}

pub open spec fn strings_view(v: Seq<String>) -> Seq<Seq<char>> {
    v.map_values(|s: String| s@)
}

impl View for ObjectField {
    type V = FieldV;

    open spec fn view(&self) -> FieldV {
        FieldV { name: self.name@, ty: self.ty@, values: strings_view(self.values@) }
    }
}

impl View for MethodParam {
    type V = ParamV;

    open spec fn view(&self) -> ParamV {
        match self {
            MethodParam::Scalar { ty, value } => ParamV::Scalar { ty: ty@, value: value@ },
            MethodParam::Object(fields) => ParamV::Object(fields@.map_values(|f: ObjectField| f@)),
        }
    }
}

pub open spec fn pairs_view(v: Seq<(String, String)>) -> Seq<(Seq<char>, Seq<char>)> {
    v.map_values(|p: (String, String)| (p.0@, p.1@))
}

impl View for Command {
    type V = CommandV;

    open spec fn view(&self) -> CommandV {
        match self {
            Command::DependsOn(names) => CommandV::DependsOn(strings_view(names@)),
            Command::Select(s) => CommandV::Select(s@),
            Command::Use(s) => CommandV::Use(s@),
            Command::Properties(ps) => CommandV::Properties(pairs_view(ps@)),
            Command::MethodParams { kind, params } => CommandV::MethodParams {
                kind: kind@,
                params: params@.map_values(|p: MethodParam| p@),
            },
        }
    }
}

impl View for TaskDeclaration {
    type V = DeclV;

    open spec fn view(&self) -> DeclV {
        DeclV { name: self.name@, commands: self.commands@.map_values(|c: Command| c@) }
    }
}

impl View for ConfigFile {
    type V = Seq<DeclV>;

    open spec fn view(&self) -> Seq<DeclV> {
        self.tasks@.map_values(|d: TaskDeclaration| d@)
    }
}

// ---------------------------------------------------------------------------
// The grammar
// ---------------------------------------------------------------------------
pub open spec fn kw_depends_on() -> Seq<char> {
    seq!['d', 'e', 'p', 'e', 'n', 'd', 's', '_', 'o', 'n']
}

pub open spec fn kw_select() -> Seq<char> {
    seq!['s', 'e', 'l', 'e', 'c', 't']
}

pub open spec fn kw_use() -> Seq<char> {
    seq!['u', 's', 'e']
}

pub open spec fn kw_properties() -> Seq<char> {
    seq!['p', 'r', 'o', 'p', 'e', 'r', 't', 'i', 'e', 's']
}

pub open spec fn kw_method_params() -> Seq<char> {
    seq!['m', 'e', 't', 'h', 'o', 'd', '_', 'p', 'a', 'r', 'a', 'm', 's']
}

/// `f` applied to every element, or `None` when it fails on one of them.
pub open spec fn all_map<A, B>(s: Seq<A>, f: spec_fn(A) -> Option<B>) -> Option<Seq<B>>
    decreases s.len(),
{
    if s.len() == 0 {
        Some(seq![])
    } else {
        match (all_map(s.drop_last(), f), f(s.last())) {
            (Some(r), Some(b)) => Some(r.push(b)),
            _ => None,
        }
    }
}

pub proof fn lemma_all_map_fail<A, B>(s: Seq<A>, f: spec_fn(A) -> Option<B>, k: int, m: int)
    requires
        0 <= k <= m <= s.len(),
        all_map(s.take(k), f) is None,
    ensures
        all_map(s.take(m), f) is None,
    decreases m - k,
{
    if k < m {
        lemma_all_map_fail(s, f, k, m - 1);
        assert(s.take(m).drop_last() =~= s.take(m - 1));
    }
}

pub proof fn lemma_all_map_len<A, B>(s: Seq<A>, f: spec_fn(A) -> Option<B>)
    ensures
        all_map(s, f) matches Some(r) ==> r.len() == s.len(),
    decreases s.len(),
{
    if s.len() > 0 {
        lemma_all_map_len(s.drop_last(), f);
    }
}

/// The text of a bare word.
pub open spec fn word_of(t: TokV) -> Option<Seq<char>> {
    match t {
        TokV::Word(w) => Some(w),
        _ => None,
    }
}

/// The text of a value: a bare word or a quoted text.
pub open spec fn value_of(t: TokV) -> Option<Seq<char>> {
    match t {
        TokV::Word(w) => Some(w),
        TokV::Quoted(q) => Some(q),
        TokV::Punct(_) => None,
    }
}

pub open spec fn single_word(seg: Seq<TokV>) -> Option<Seq<char>> {
    if seg.len() == 1 {
        word_of(seg[0])
    } else {
        None
    }
}

pub open spec fn single_value(seg: Seq<TokV>) -> Option<Seq<char>> {
    if seg.len() == 1 {
        value_of(seg[0])
    } else {
        None
    }
}

/// `name : value`
pub open spec fn property_of(seg: Seq<TokV>) -> Option<(Seq<char>, Seq<char>)> {
    if seg.len() == 3 && seg[0] is Word && seg[1] == TokV::Punct(':') && value_of(seg[2]) is Some {
        Some((seg[0]->Word_0, value_of(seg[2])->Some_0))
    } else {
        None
    }
}

/// `name : type = value value ...` with at least one value.
pub open spec fn field_of(seg: Seq<TokV>) -> Option<FieldV> {
    if seg.len() >= 5 && seg[0] is Word && seg[1] == TokV::Punct(':') && seg[2] is Word && seg[3]
        == TokV::Punct('=') {
        match all_map(seg.skip(4), value_fn()) {
            Some(values) => Some(FieldV { name: seg[0]->Word_0, ty: seg[2]->Word_0, values }),
            None => None,
        }
    } else {
        None
    }
}

pub open spec fn value_fn() -> spec_fn(TokV) -> Option<Seq<char>> {
    |t: TokV| value_of(t)
}

pub open spec fn word_fn() -> spec_fn(Seq<TokV>) -> Option<Seq<char>> {
    |s: Seq<TokV>| single_word(s)
}

pub open spec fn property_fn() -> spec_fn(Seq<TokV>) -> Option<(Seq<char>, Seq<char>)> {
    |s: Seq<TokV>| property_of(s)
}

pub open spec fn field_fn() -> spec_fn(Seq<TokV>) -> Option<FieldV> {
    |s: Seq<TokV>| field_of(s)
}

pub open spec fn param_fn() -> spec_fn(Seq<TokV>) -> Option<ParamV> {
    |s: Seq<TokV>| param_of(s)
}

/// `type = value`, or `{ field ; field ; ... }`.
pub open spec fn param_of(seg: Seq<TokV>) -> Option<ParamV> {
    if seg.len() == 3 && seg[0] is Word && seg[1] == TokV::Punct('=') && value_of(seg[2]) is Some {
        Some(ParamV::Scalar { ty: seg[0]->Word_0, value: value_of(seg[2])->Some_0 })
    } else if seg.len() >= 2 && seg[0] == TokV::Punct('{') && seg.last() == TokV::Punct('}') {
        match all_map(split_on(seg.subrange(1, seg.len() - 1), TokV::Punct(';')), field_fn()) {
            Some(fields) => Some(ParamV::Object(fields)),
            None => None,
        }
    } else {
        None
    }
}

/// What follows `keyword =` on a command line.
pub open spec fn parse_command(kw: Seq<char>, rest: Seq<TokV>) -> Option<CommandV> {
    let segs = split_on(rest, TokV::Punct(','));
    if kw == kw_depends_on() {
        match all_map(segs, word_fn()) {
            Some(names) => Some(CommandV::DependsOn(names)),
            None => None,
        }
    } else if kw == kw_select() {
        match single_value(rest) {
            Some(v) => Some(CommandV::Select(v)),
            None => None,
        }
    } else if kw == kw_use() {
        match single_value(rest) {
            Some(v) => Some(CommandV::Use(v)),
            None => None,
        }
    } else if kw == kw_properties() {
        match all_map(segs, property_fn()) {
            Some(ps) => Some(CommandV::Properties(ps)),
            None => None,
        }
    } else if kw == kw_method_params() {
        match (single_word(segs[0]), all_map(segs.skip(1), param_fn())) {
            (Some(kind), Some(params)) => Some(CommandV::MethodParams { kind, params }),
            _ => None,
        }
    } else {
        None
    }
}

/// One line, given its tokens.
pub open spec fn parse_line(t: Seq<TokV>) -> Option<LineV> {
    if t.len() == 0 {
        Some(LineV::Blank)
    } else if t.len() == 3 && t[0] == TokV::Punct('[') && t[1] is Word && t[2] == TokV::Punct(']') {
        Some(LineV::Header(t[1]->Word_0))
    } else if t.len() >= 2 && t[0] is Word && t[1] == TokV::Punct('=') {
        match parse_command(t[0]->Word_0, t.skip(2)) {
            Some(c) => Some(LineV::Command(c)),
            None => None,
        }
    } else {
        None
    }
}

/// One line, given its characters.
pub open spec fn line_of(raw: Seq<char>) -> Option<LineV> {
    match lex(raw) {
        Some(t) => parse_line(t),
        None => None,
    }
}

/// Adds one line to the tasks read so far: a header opens a task, a command
/// goes to the last task (there must be one), a blank line changes nothing.
pub open spec fn add_line(ds: Option<Seq<DeclV>>, l: Option<LineV>) -> Option<Seq<DeclV>> {
    match (ds, l) {
        (Some(ds), Some(LineV::Blank)) => Some(ds),
        (Some(ds), Some(LineV::Header(n))) => Some(ds.push(DeclV { name: n, commands: seq![] })),
        (Some(ds), Some(LineV::Command(c))) => if ds.len() == 0 {
            None
        } else {
            Some(
                ds.update(
                    ds.len() - 1,
                    DeclV { name: ds.last().name, commands: ds.last().commands.push(c) },
                ),
            )
        },
        _ => None,
    }
}

pub open spec fn parse_decls(lines: Seq<Seq<char>>) -> Option<Seq<DeclV>>
    decreases lines.len(),
{
    if lines.len() == 0 {
        Some(seq![])
    } else {
        add_line(parse_decls(lines.drop_last()), line_of(lines.last()))
    }
}

/// The tasks of a configuration text, or `None` when it breaks the grammar.
pub open spec fn spec_parse_file(text: Seq<char>) -> Option<Seq<DeclV>> {
    parse_decls(split_on(text, '\n'))
}

pub proof fn lemma_parse_decls_fail(lines: Seq<Seq<char>>, k: int, m: int)
    requires
        0 <= k <= m <= lines.len(),
        parse_decls(lines.take(k)) is None,
    ensures
        parse_decls(lines.take(m)) is None,
    decreases m - k,
{
    if k < m {
        lemma_parse_decls_fail(lines, k, m - 1);
        assert(lines.take(m).drop_last() =~= lines.take(m - 1));
    }
}

// ---------------------------------------------------------------------------
// Implementation
// ---------------------------------------------------------------------------
pub open spec fn range_view(t: Seq<Token>, a: int, b: int) -> Seq<TokV> {
    toks_view(t).subrange(a, b)
}

pub open spec fn ranges_view(t: Seq<Token>, r: Seq<(usize, usize)>) -> Seq<Seq<TokV>> {
    r.map_values(|p: (usize, usize)| range_view(t, p.0 as int, p.1 as int))
}

pub open spec fn ranges_within(r: Seq<(usize, usize)>, a: int, b: int) -> bool {
    forall|i: int| 0 <= i < r.len() ==> a <= #[trigger] r[i].0 <= r[i].1 <= b
}

fn is_punct_tok(t: &Token, c: char) -> (b: bool)
    ensures
        b == (t@ == TokV::Punct(c)),
{
    match t {
        Token::Punct(d) => *d == c,
        _ => false,
    }
}

/// The pieces of `t[a..b]` between the tokens `sep`, as index ranges.
fn split_tokens(t: &Vec<Token>, a: usize, b: usize, sep: char) -> (r: Vec<(usize, usize)>)
    requires
        a <= b <= t.len(),
    ensures
        ranges_view(t@, r@) == split_on(range_view(t@, a as int, b as int), TokV::Punct(sep)),
        ranges_within(r@, a as int, b as int),
{
    let mut done: Vec<(usize, usize)> = Vec::new();
    let mut start = a;
    let mut i = a;
    assert(range_view(t@, a as int, a as int) =~= Seq::<TokV>::empty());
    assert(ranges_view(t@, done@).push(range_view(t@, start as int, i as int)) =~= seq![
        Seq::<TokV>::empty(),
    ]);
    while i < b
        invariant
            a <= start <= i <= b <= t.len(),
            ranges_within(done@, a as int, b as int),
            split_on(range_view(t@, a as int, i as int), TokV::Punct(sep)) == ranges_view(
                t@,
                done@,
            ).push(range_view(t@, start as int, i as int)),
        decreases b - i,
    {
        let ghost before = ranges_view(t@, done@);
        let ghost whole = range_view(t@, a as int, (i + 1) as int);
        assert(whole.drop_last() =~= range_view(t@, a as int, i as int));
        assert(whole.last() == t@[i as int]@);
        proof {
            lemma_split_on_nonempty(range_view(t@, a as int, i as int), TokV::Punct(sep));
        }
        if is_punct_tok(&t[i], sep) {
            let ghost old_start = start;
            done.push((start, i));
            start = i + 1;
            assert(ranges_view(t@, done@) =~= before.push(range_view(t@, old_start as int, i as int)));
            assert(range_view(t@, start as int, (i + 1) as int) =~= Seq::<TokV>::empty());
        } else {
            assert(range_view(t@, start as int, (i + 1) as int) =~= range_view(
                t@,
                start as int,
                i as int,
            ).push(t@[i as int]@));
        }
        i = i + 1;
        assert(split_on(range_view(t@, a as int, i as int), TokV::Punct(sep)) =~= ranges_view(
            t@,
            done@,
        ).push(range_view(t@, start as int, i as int)));
    }
    let ghost before = ranges_view(t@, done@);
    done.push((start, b));
    assert(ranges_view(t@, done@) =~= before.push(range_view(t@, start as int, b as int)));
    done
}

fn word_at(t: &Vec<Token>, i: usize) -> (r: Option<String>)
    requires
        i < t.len(),
    ensures
        match r {
            Some(s) => word_of(t@[i as int]@) == Some(s@),
            None => word_of(t@[i as int]@) is None,
        },
{
    match &t[i] {
        Token::Word(w) => Some(string_of(w.as_slice())),
        _ => None,
    }
}

fn value_at(t: &Vec<Token>, i: usize) -> (r: Option<String>)
    requires
        i < t.len(),
    ensures
        match r {
            Some(s) => value_of(t@[i as int]@) == Some(s@),
            None => value_of(t@[i as int]@) is None,
        },
{
    match &t[i] {
        Token::Word(w) => Some(string_of(w.as_slice())),
        Token::Quoted(q) => Some(string_of(q.as_slice())),
        _ => None,
    }
}

fn single_word_in(t: &Vec<Token>, a: usize, b: usize) -> (r: Option<String>)
    requires
        a <= b <= t.len(),
    ensures
        match r {
            Some(s) => single_word(range_view(t@, a as int, b as int)) == Some(s@),
            None => single_word(range_view(t@, a as int, b as int)) is None,
        },
{
    if b - a == 1 {
        word_at(t, a)
    } else {
        None
    }
}

fn single_value_in(t: &Vec<Token>, a: usize, b: usize) -> (r: Option<String>)
    requires
        a <= b <= t.len(),
    ensures
        match r {
            Some(s) => single_value(range_view(t@, a as int, b as int)) == Some(s@),
            None => single_value(range_view(t@, a as int, b as int)) is None,
        },
{
    if b - a == 1 {
        value_at(t, a)
    } else {
        None
    }
}

fn property_in(t: &Vec<Token>, a: usize, b: usize) -> (r: Option<(String, String)>)
    requires
        a <= b <= t.len(),
    ensures
        match r {
            Some(p) => property_of(range_view(t@, a as int, b as int)) == Some((p.0@, p.1@)),
            None => property_of(range_view(t@, a as int, b as int)) is None,
        },
{
    if b - a != 3 || !is_punct_tok(&t[a + 1], ':') {
        return None;
    }
    match (word_at(t, a), value_at(t, a + 2)) {
        (Some(k), Some(v)) => Some((k, v)),
        _ => None,
    }
}

fn field_in(t: &Vec<Token>, a: usize, b: usize) -> (r: Option<ObjectField>)
    requires
        a <= b <= t.len(),
    ensures
        match r {
            Some(f) => field_of(range_view(t@, a as int, b as int)) == Some(f@),
            None => field_of(range_view(t@, a as int, b as int)) is None,
        },
{
    let ghost seg = range_view(t@, a as int, b as int);
    if b - a < 5 || !is_punct_tok(&t[a + 1], ':') || !is_punct_tok(&t[a + 3], '=') {
        return None;
    }
    let name = match word_at(t, a) {
        Some(n) => n,
        None => {
            return None;
        },
    };
    let ty = match word_at(t, a + 2) {
        Some(n) => n,
        None => {
            return None;
        },
    };
    let ghost vals = seg.skip(4);
    let mut values: Vec<String> = Vec::new();
    let mut k = a + 4;
    assert(vals.take(0) =~= Seq::<TokV>::empty());
    while k < b
        invariant
            a + 4 <= k <= b <= t.len(),
            seg == range_view(t@, a as int, b as int),
            vals == seg.skip(4),
            all_map(vals.take(k - a - 4), value_fn()) == Some(strings_view(values@)),
        decreases b - k,
    {
        let ghost j = k - a - 4;
        assert(vals.take(j + 1).drop_last() =~= vals.take(j));
        assert(vals.take(j + 1).last() == t@[k as int]@);
        match value_at(t, k) {
            Some(v) => {
                let ghost before = strings_view(values@);
                values.push(v);
                k = k + 1;
                assert(strings_view(values@) =~= before.push(v@));
            },
            None => {
                proof {
                    lemma_all_map_fail(vals, value_fn(), j + 1, vals.len() as int);
                    assert(vals.take(vals.len() as int) =~= vals);
                }
                return None;
            },
        }
    }
    assert(vals.take(vals.len() as int) =~= vals);
    Some(ObjectField { name, ty, values })
}

fn param_in(t: &Vec<Token>, a: usize, b: usize) -> (r: Option<MethodParam>)
    requires
        a <= b <= t.len(),
    ensures
        match r {
            Some(p) => param_of(range_view(t@, a as int, b as int)) == Some(p@),
            None => param_of(range_view(t@, a as int, b as int)) is None,
        },
{
    let ghost seg = range_view(t@, a as int, b as int);
    assert(forall|k: int| 0 <= k < b - a ==> seg[k] == #[trigger] t@[a + k]@);
    if b - a == 3 && is_punct_tok(&t[a + 1], '=') {
        match (word_at(t, a), value_at(t, a + 2)) {
            (Some(ty), Some(value)) => {
                return Some(MethodParam::Scalar { ty, value });
            },
            _ => {
                assert(!(seg[0] is Word && value_of(seg[2]) is Some));
            },
        }
    }
    if b - a < 2 || !is_punct_tok(&t[a], '{') || !is_punct_tok(&t[b - 1], '}') {
        assert(b - a >= 2 ==> seg[0] == t@[a as int]@ && seg.last() == t@[b - 1]@);
        return None;
    }
    assert(seg[0] == t@[a as int]@ && seg.last() == t@[b - 1]@);
    assert(seg.len() == 3 ==> seg[1] == t@[a + 1]@);
    assert(seg.subrange(1, seg.len() - 1) =~= range_view(t@, a + 1, b - 1));
    let ranges = split_tokens(t, a + 1, b - 1, ';');
    let ghost segs = ranges_view(t@, ranges@);
    assert(segs == split_on(seg.subrange(1, seg.len() - 1), TokV::Punct(';')));
    let mut fields: Vec<ObjectField> = Vec::new();
    let mut i: usize = 0;
    assert(segs.take(0) =~= Seq::<Seq<TokV>>::empty());
    while i < ranges.len()
        invariant
            i <= ranges.len(),
            a + 1 <= b - 1,
            b <= t.len(),
            segs == ranges_view(t@, ranges@),
            seg == range_view(t@, a as int, b as int),
            seg.len() >= 2,
            seg[0] == TokV::Punct('{'),
            segs == split_on(seg.subrange(1, seg.len() - 1), TokV::Punct(';')),
            ranges_within(ranges@, a + 1, b - 1),
            all_map(segs.take(i as int), field_fn()) == Some(
                fields@.map_values(|f: ObjectField| f@),
            ),
        decreases ranges.len() - i,
    {
        let (p, q) = ranges[i];
        assert(segs.take(i + 1).drop_last() =~= segs.take(i as int));
        assert(segs.take(i + 1).last() == range_view(t@, p as int, q as int));
        match field_in(t, p, q) {
            Some(f) => {
                let ghost before = fields@.map_values(|f: ObjectField| f@);
                fields.push(f);
                i = i + 1;
                assert(fields@.map_values(|f: ObjectField| f@) =~= before.push(f@));
            },
            None => {
                proof {
                    lemma_all_map_fail(segs, field_fn(), i + 1, segs.len() as int);
                    assert(segs.take(segs.len() as int) =~= segs);
                    assert(all_map(segs, field_fn()) is None);
                    assert(segs == split_on(seg.subrange(1, seg.len() - 1), TokV::Punct(';')));
                    assert(!(seg[0] is Word));
                    assert(param_of(seg) is None);
                }
                return None;
            },
        }
    }
    assert(segs.take(i as int) =~= segs);
    Some(MethodParam::Object(fields))
}

fn names_in(t: &Vec<Token>, ranges: &Vec<(usize, usize)>) -> (r: Option<Vec<String>>)
    requires
        ranges_within(ranges@, 0, t.len() as int),
    ensures
        match r {
            Some(v) => all_map(ranges_view(t@, ranges@), word_fn()) == Some(strings_view(v@)),
            None => all_map(ranges_view(t@, ranges@), word_fn()) is None,
        },
{
    let ghost segs = ranges_view(t@, ranges@);
    let mut names: Vec<String> = Vec::new();
    let mut i: usize = 0;
    assert(segs.take(0) =~= Seq::<Seq<TokV>>::empty());
    while i < ranges.len()
        invariant
            i <= ranges.len(),
            segs == ranges_view(t@, ranges@),
            ranges_within(ranges@, 0, t.len() as int),
            all_map(segs.take(i as int), word_fn()) == Some(strings_view(names@)),
        decreases ranges.len() - i,
    {
        let (p, q) = ranges[i];
        assert(segs.take(i + 1).drop_last() =~= segs.take(i as int));
        assert(segs.take(i + 1).last() == range_view(t@, p as int, q as int));
        match single_word_in(t, p, q) {
            Some(w) => {
                let ghost before = strings_view(names@);
                names.push(w);
                i = i + 1;
                assert(strings_view(names@) =~= before.push(w@));
            },
            None => {
                proof {
                    lemma_all_map_fail(segs, word_fn(), i + 1, segs.len() as int);
                    assert(segs.take(segs.len() as int) =~= segs);
                }
                return None;
            },
        }
    }
    assert(segs.take(i as int) =~= segs);
    Some(names)
}

fn properties_in(t: &Vec<Token>, ranges: &Vec<(usize, usize)>) -> (r: Option<Vec<(String, String)>>)
    requires
        ranges_within(ranges@, 0, t.len() as int),
    ensures
        match r {
            Some(v) => all_map(ranges_view(t@, ranges@), property_fn()) == Some(pairs_view(v@)),
            None => all_map(ranges_view(t@, ranges@), property_fn()) is None,
        },
{
    let ghost segs = ranges_view(t@, ranges@);
    let mut props: Vec<(String, String)> = Vec::new();
    let mut i: usize = 0;
    assert(segs.take(0) =~= Seq::<Seq<TokV>>::empty());
    while i < ranges.len()
        invariant
            i <= ranges.len(),
            segs == ranges_view(t@, ranges@),
            ranges_within(ranges@, 0, t.len() as int),
            all_map(segs.take(i as int), property_fn()) == Some(pairs_view(props@)),
        decreases ranges.len() - i,
    {
        let (p, q) = ranges[i];
        assert(segs.take(i + 1).drop_last() =~= segs.take(i as int));
        assert(segs.take(i + 1).last() == range_view(t@, p as int, q as int));
        match property_in(t, p, q) {
            Some(pr) => {
                let ghost before = pairs_view(props@);
                let ghost pv = (pr.0@, pr.1@);
                props.push(pr);
                i = i + 1;
                assert(pairs_view(props@) =~= before.push(pv));
            },
            None => {
                proof {
                    lemma_all_map_fail(segs, property_fn(), i + 1, segs.len() as int);
                    assert(segs.take(segs.len() as int) =~= segs);
                }
                return None;
            },
        }
    }
    assert(segs.take(i as int) =~= segs);
    Some(props)
}

/// The parameters after the first piece of a `method_params` line.
fn params_in(t: &Vec<Token>, ranges: &Vec<(usize, usize)>) -> (r: Option<Vec<MethodParam>>)
    requires
        ranges@.len() >= 1,
        ranges_within(ranges@, 0, t.len() as int),
    ensures
        match r {
            Some(v) => all_map(ranges_view(t@, ranges@).skip(1), param_fn()) == Some(
                v@.map_values(|p: MethodParam| p@),
            ),
            None => all_map(ranges_view(t@, ranges@).skip(1), param_fn()) is None,
        },
{
    let ghost tail = ranges_view(t@, ranges@).skip(1);
    let mut params: Vec<MethodParam> = Vec::new();
    let mut i: usize = 1;
    assert(tail.take(0) =~= Seq::<Seq<TokV>>::empty());
    while i < ranges.len()
        invariant
            1 <= i <= ranges.len(),
            tail == ranges_view(t@, ranges@).skip(1),
            ranges_within(ranges@, 0, t.len() as int),
            all_map(tail.take(i - 1), param_fn()) == Some(
                params@.map_values(|p: MethodParam| p@),
            ),
        decreases ranges.len() - i,
    {
        let (p, q) = ranges[i];
        assert(tail.take(i as int).drop_last() =~= tail.take(i - 1));
        assert(tail.take(i as int).last() == range_view(t@, p as int, q as int));
        match param_in(t, p, q) {
            Some(pm) => {
                let ghost before = params@.map_values(|p: MethodParam| p@);
                let ghost pv = pm@;
                params.push(pm);
                i = i + 1;
                assert(params@.map_values(|p: MethodParam| p@) =~= before.push(pv));
            },
            None => {
                proof {
                    lemma_all_map_fail(tail, param_fn(), i as int, tail.len() as int);
                    assert(tail.take(tail.len() as int) =~= tail);
                }
                return None;
            },
        }
    }
    assert(tail.take(i - 1) =~= tail);
    Some(params)
}

fn command_in(t: &Vec<Token>, kw: &Vec<char>, a: usize, b: usize) -> (r: Option<Command>)
    requires
        a <= b <= t.len(),
    ensures
        match r {
            Some(c) => parse_command(kw@, range_view(t@, a as int, b as int)) == Some(c@),
            None => parse_command(kw@, range_view(t@, a as int, b as int)) is None,
        },
{
    let ghost rest = range_view(t@, a as int, b as int);
    let ghost segs = split_on(rest, TokV::Punct(','));
    if chars_eq(kw, &['s', 'e', 'l', 'e', 'c', 't']) {
        return match single_value_in(t, a, b) {
            Some(v) => Some(Command::Select(v)),
            None => None,
        };
    }
    if chars_eq(kw, &['u', 's', 'e']) {
        return match single_value_in(t, a, b) {
            Some(v) => Some(Command::Use(v)),
            None => None,
        };
    }
    let is_dep = chars_eq(kw, &['d', 'e', 'p', 'e', 'n', 'd', 's', '_', 'o', 'n']);
    let is_prop = chars_eq(kw, &['p', 'r', 'o', 'p', 'e', 'r', 't', 'i', 'e', 's']);
    let is_mp = chars_eq(kw, &['m', 'e', 't', 'h', 'o', 'd', '_', 'p', 'a', 'r', 'a', 'm', 's']);
    if !is_dep && !is_prop && !is_mp {
        return None;
    }
    let ranges = split_tokens(t, a, b, ',');
    assert(ranges_view(t@, ranges@) == segs);
    if is_dep {
        return match names_in(t, &ranges) {
            Some(names) => Some(Command::DependsOn(names)),
            None => None,
        };
    }
    if is_prop {
        return match properties_in(t, &ranges) {
            Some(props) => Some(Command::Properties(props)),
            None => None,
        };
    }
    proof {
        lemma_split_on_nonempty(rest, TokV::Punct(','));
    }
    let (p0, q0) = ranges[0];
    assert(segs[0] == range_view(t@, p0 as int, q0 as int));
    let kind = match single_word_in(t, p0, q0) {
        Some(k) => k,
        None => {
            return None;
        },
    };
    match params_in(t, &ranges) {
        Some(params) => Some(Command::MethodParams { kind, params }),
        None => None,
    }
}

pub enum Line {
    Blank,
    Header(String),
    Command(Command),
}

pub open spec fn opt_line_view(r: Option<Line>) -> Option<LineV> {
    match r {
        Some(Line::Blank) => Some(LineV::Blank),
        Some(Line::Header(n)) => Some(LineV::Header(n@)),
        Some(Line::Command(c)) => Some(LineV::Command(c@)),
        None => None,
    }
}

fn line_in(t: &Vec<Token>) -> (r: Option<Line>)
    ensures
        opt_line_view(r) == parse_line(toks_view(t@)),
{
    let ghost v = toks_view(t@);
    let n = t.len();
    if n == 0 {
        return Some(Line::Blank);
    }
    if n == 3 && is_punct_tok(&t[0], '[') && is_punct_tok(&t[2], ']') {
        match word_at(t, 1) {
            Some(name) => {
                return Some(Line::Header(name));
            },
            None => {
                return None;
            },
        }
    }
    if n < 2 || !is_punct_tok(&t[1], '=') {
        return None;
    }
    match &t[0] {
        Token::Word(kw) => {
            assert(range_view(t@, 2, n as int) =~= v.skip(2));
            match command_in(t, kw, 2, n) {
                Some(c) => Some(Line::Command(c)),
                None => None,
            }
        },
        _ => None,
    }
}

/// Reads one line of the file.
fn read_line(raw: &Vec<char>) -> (r: Option<Line>)
    ensures
        opt_line_view(r) == line_of(raw@),
{
    match lex_line(raw) {
        Some(t) => line_in(&t),
        None => None,
    }
}

pub open spec fn decls_with(done: Seq<TaskDeclaration>, cur: Option<TaskDeclaration>) -> Seq<DeclV> {
    match cur {
        Some(d) => done.map_values(|x: TaskDeclaration| x@).push(d@),
        None => done.map_values(|x: TaskDeclaration| x@),
    }
}

/// Parses a configuration text into its tasks.
pub fn parse_file(text: &str) -> (r: Result<ConfigFile, ParseError>)
    ensures
        match r {
            Ok(f) => spec_parse_file(text@) == Some(f@),
            Err(e) => {
                &&& spec_parse_file(text@) is None
                &&& 1 <= e.line <= split_on(text@, '\n').len()
                &&& parse_decls(split_on(text@, '\n').take(e.line - 1)) is Some
                &&& parse_decls(split_on(text@, '\n').take(e.line as int)) is None
            },
        },
{
    let chars = chars_of(text);
    let lines = split_lines(&chars);
    let ghost ls = split_on(text@, '\n');
    assert(lines@.map_values(|v: Vec<char>| v@) == ls);
    let mut done: Vec<TaskDeclaration> = Vec::new();
    let mut cur: Option<TaskDeclaration> = None;
    let mut i: usize = 0;
    assert(ls.take(0) =~= Seq::<Seq<char>>::empty());
    assert(decls_with(done@, cur) =~= Seq::<DeclV>::empty());
    while i < lines.len()
        invariant
            i <= lines.len(),
            ls == lines@.map_values(|v: Vec<char>| v@),
            ls == split_on(text@, '\n'),
            parse_decls(ls.take(i as int)) == Some(decls_with(done@, cur)),
            done@.len() > 0 ==> cur is Some,
        decreases lines.len() - i,
    {
        assert(ls.take(i + 1).drop_last() =~= ls.take(i as int));
        assert(ls.take(i + 1).last() == lines@[i as int]@);
        let ghost before = decls_with(done@, cur);
        match read_line(&lines[i]) {
            Some(Line::Blank) => {},
            Some(Line::Header(name)) => {
                let ghost old_done = done@;
                match cur {
                    Some(d) => {
                        let ghost dv = d@;
                        done.push(d);
                        assert(done@.map_values(|x: TaskDeclaration| x@) =~= old_done.map_values(
                            |x: TaskDeclaration| x@,
                        ).push(dv));
                        assert(before == done@.map_values(|x: TaskDeclaration| x@));
                    },
                    None => {
                        assert(before == done@.map_values(|x: TaskDeclaration| x@));
                    },
                }
                let ghost nv = name@;
                cur = Some(TaskDeclaration { name, commands: Vec::new() });
                assert(cur->Some_0@ == DeclV { name: nv, commands: seq![] }) by {
                    assert(cur->Some_0.commands@.map_values(|c: Command| c@) =~= Seq::<CommandV>::empty());
                }
                assert(decls_with(done@, cur) =~= before.push(
                    DeclV { name: nv, commands: seq![] },
                ));
            },
            Some(Line::Command(c)) => {
                match cur {
                    Some(mut d) => {
                        let ghost dv = d@;
                        d.commands.push(c);
                        assert(d@.commands =~= dv.commands.push(c@));
                        cur = Some(d);
                        assert(decls_with(done@, cur) =~= before.update(
                            before.len() - 1,
                            DeclV { name: before.last().name, commands: before.last().commands.push(c@) },
                        ));
                    },
                    None => {
                        assert(before.len() == 0);
                        proof {
                            lemma_parse_decls_fail(ls, i + 1, ls.len() as int);
                            assert(ls.take(ls.len() as int) =~= ls);
                        }
                        return Err(ParseError { line: i + 1 });
                    },
                }
            },
            None => {
                proof {
                    lemma_parse_decls_fail(ls, i + 1, ls.len() as int);
                    assert(ls.take(ls.len() as int) =~= ls);
                }
                return Err(ParseError { line: i + 1 });
            },
        }
        i = i + 1;
    }
    assert(ls.take(lines.len() as int) =~= ls);
    match cur {
        Some(d) => {
            done.push(d);
        },
        None => {},
    }
    Ok(ConfigFile { tasks: done })
}

} // verus!
