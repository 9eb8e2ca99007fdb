//! The APT configuration language: a text of nested scopes (`APT { Get { ... }; };`),
//! `::`-separated paths (`APT::Get::Assume-Yes "true";`) and lists
//! (`Acquire::Languages { "en"; "fr"; };`), read into a tree of scopes.
use vstd::prelude::*;

use super::args::Commands;
use super::environment::{
    join_lines, join_lines_exec, lines_of, replace_or_push, set_line, split_lines,
};
use super::text::{chars_of, contains, str_contains, string_from_chars};

verus! {

// ----------------------------------------------------------------------------------------
// The configuration tree
// ----------------------------------------------------------------------------------------

/// A value of the configuration tree.
#[derive(Debug, PartialEq, Eq)]
pub enum ContentType {
    Scope(Scope),
    String(String),
    Bool(bool),
    Integer(i64),
    List(Vec<String>),
}

/// A named scope and its entries, each under its own key.
#[derive(Debug, PartialEq, Eq)]
pub struct Scope {
    pub name: String,
    pub content: Vec<(String, ContentType)>,
}

/// A whole configuration: its top-level scopes.
#[derive(Debug, PartialEq, Eq)]
pub struct AptConfig {
    pub scopes: Vec<Scope>,
}

/// A value that is not a scope, in mathematical form.
pub enum LeafView {
    Text(Seq<char>),
    Flag(bool),
    Number(int),
    Items(Seq<Seq<char>>),
}

/// The mathematical form of a value that is not a scope; `None` for a scope.
pub open spec fn leaf_view(c: ContentType) -> Option<LeafView> {
    match c {
        ContentType::Scope(_) => None,
        ContentType::String(s) => Some(LeafView::Text(s@)),
        ContentType::Bool(b) => Some(LeafView::Flag(b)),
        ContentType::Integer(n) => Some(LeafView::Number(n as int)),
        ContentType::List(v) => Some(LeafView::Items(v.deep_view())),
    }
}

/// A scope of the configuration tree in mathematical form: its name and its entries, in
/// order.
pub struct ScopeView {
    pub name: Seq<char>,
    pub content: Seq<(Seq<char>, NodeView)>,
}

/// A value of the configuration tree in mathematical form.
pub enum NodeView {
    Branch(ScopeView),
    Leaf(LeafView),
}

/// The mathematical form of a value of the tree.
pub open spec fn node_view(c: ContentType) -> NodeView
    decreases c,
{
    match c {
        ContentType::Scope(sc) => NodeView::Branch(
            ScopeView { name: sc.name@, content: content_view(sc.content@) },
        ),
        ContentType::String(s) => NodeView::Leaf(LeafView::Text(s@)),
        ContentType::Bool(b) => NodeView::Leaf(LeafView::Flag(b)),
        ContentType::Integer(n) => NodeView::Leaf(LeafView::Number(n as int)),
        ContentType::List(v) => NodeView::Leaf(LeafView::Items(v.deep_view())),
    }
}

/// The mathematical form of the entries of a scope.
pub open spec fn content_view(s: Seq<(String, ContentType)>) -> Seq<(Seq<char>, NodeView)>
    decreases s,
{
    if s.len() == 0 {
        Seq::empty()
    } else {
        content_view(s.subrange(0, s.len() - 1)).push(
            (s[s.len() - 1].0@, node_view(s[s.len() - 1].1)),
        )
    }
}

/// The mathematical form of a top-level scope.
pub open spec fn scope_view(sc: Scope) -> ScopeView {
    ScopeView { name: sc.name@, content: content_view(sc.content@) }
}

/// The mathematical form of a whole configuration: its top-level scopes, in order.
pub open spec fn config_view(c: AptConfig) -> Seq<ScopeView> {
    c.scopes@.map_values(|sc: Scope| scope_view(sc))
}

// ----------------------------------------------------------------------------------------
// Values
// ----------------------------------------------------------------------------------------

pub open spec fn is_digit(c: char) -> bool {
    '0' <= c && c <= '9'
}

pub open spec fn digit_value(c: char) -> int {
    (c as int) - ('0' as int)
}

/// The number written by a string of decimal digits.
pub open spec fn digits_value(s: Seq<char>) -> int
    decreases s.len(),
{
    if s.len() == 0 {
        0
    } else {
        digits_value(s.drop_last()) * 10 + digit_value(s.last())
    }
}

/// A nonempty string of decimal digits.
pub open spec fn all_digits(s: Seq<char>) -> bool {
    s.len() > 0 && forall|i: int| 0 <= i < s.len() ==> is_digit(#[trigger] s[i])
}

/// The integer written in decimal by `s`, with an optional leading `-`.
pub open spec fn integer_of(s: Seq<char>) -> Option<int> {
    if all_digits(s) {
        Some(digits_value(s))
    } else if s.len() > 1 && s[0] == '-' && all_digits(s.drop_first()) {
        Some(-digits_value(s.drop_first()))
    } else {
        None
    }
}

/// The value that a quoted text stands for: `true` and `false` are flags, a decimal integer
/// that fits in 64 bits is a number, anything else is text.
pub open spec fn scalar_of(v: Seq<char>) -> LeafView {
    if v == seq!['t', 'r', 'u', 'e'] {
        LeafView::Flag(true)
    } else if v == seq!['f', 'a', 'l', 's', 'e'] {
        LeafView::Flag(false)
    } else if integer_of(v) is Some && i64::MIN <= integer_of(v)->0 <= i64::MAX {
        LeafView::Number(integer_of(v)->0)
    } else {
        LeafView::Text(v)
    }
}

proof fn lemma_digits_value_nonneg(s: Seq<char>)
    requires
        forall|i: int| 0 <= i < s.len() ==> is_digit(#[trigger] s[i]),
    ensures
        digits_value(s) >= 0,
    decreases s.len(),
{
    if s.len() > 0 {
        assert forall|i: int| 0 <= i < s.drop_last().len() implies is_digit(
            #[trigger] s.drop_last()[i],
        ) by {
            assert(s.drop_last()[i] == s[i]);
        }
        lemma_digits_value_nonneg(s.drop_last());
        assert(is_digit(s[s.len() - 1]));
    }
}

/// A longer string of digits is worth at least as much as its prefix.
proof fn lemma_digits_value_grows(s: Seq<char>, i: int)
    requires
        0 <= i <= s.len(),
        forall|k: int| 0 <= k < s.len() ==> is_digit(#[trigger] s[k]),
    ensures
        digits_value(s.take(i)) <= digits_value(s),
    decreases s.len() - i,
{
    if i < s.len() {
        lemma_digits_value_grows(s, i + 1);
        assert(s.take(i + 1).drop_last() =~= s.take(i));
        assert(is_digit(s[i]));
        assert forall|k: int| 0 <= k < s.take(i).len() implies is_digit(#[trigger] s.take(i)[k]) by {
            assert(s.take(i)[k] == s[k]);
        }
        lemma_digits_value_nonneg(s.take(i));
    } else {
        assert(s.take(i) =~= s);
    }
}

/// The value of the digits `v[from..]`, if it fits in 64 bits.
fn digits_u64(v: &Vec<char>, from: usize) -> (r: Option<u64>)
    requires
        from < v.len(),
        all_digits(v@.skip(from as int)),
    ensures
        match r {
            Some(n) => n == digits_value(v@.skip(from as int)),
            None => digits_value(v@.skip(from as int)) > u64::MAX,
        },
{
    let ghost d = v@.skip(from as int);
    let mut acc: u64 = 0;
    let mut i: usize = from;
    while i < v.len()
        invariant
            from <= i <= v.len(),
            d == v@.skip(from as int),
            all_digits(d),
            acc == digits_value(d.take(i - from)),
        decreases v.len() - i,
    {
        assert(d.take(i - from + 1).drop_last() =~= d.take(i - from));
        assert(d[i - from] == v@[i as int]);
        let c = v[i];
        assert(is_digit(d[i - from]));
        let dv: u64 = ((c as u32) - ('0' as u32)) as u64;
        match acc.checked_mul(10) {
            Some(m) => match m.checked_add(dv) {
                Some(n) => {
                    acc = n;
                },
                None => {
                    proof {
                        lemma_digits_value_grows(d, i - from + 1);
                    }
                    return None;
                },
            },
            None => {
                proof {
                    lemma_digits_value_grows(d, i - from + 1);
                    assert(digit_value(c) >= 0);
                }
                return None;
            },
        }
        i = i + 1;
    }
    assert(d.take(v.len() - from) =~= d);
    Some(acc)
}

/// Whether the characters are exactly `w`.
fn chars_equal(v: &Vec<char>, w: &str) -> (r: bool)
    ensures
        r == (v@ == w@),
{
    let wv = chars_of(w);
    if v.len() != wv.len() {
        return false;
    }
    let mut i: usize = 0;
    while i < v.len()
        invariant
            i <= v.len(),
            v.len() == wv.len(),
            wv@ == w@,
            forall|k: int| 0 <= k < i ==> v@[k] == wv@[k],
        decreases v.len() - i,
    {
        if v[i] != wv[i] {
            return false;
        }
        i = i + 1;
    }
    assert(v@ =~= wv@);
    true
}

/// The value that a quoted text stands for (see [`scalar_of`]).
pub fn convert_value(v: &str) -> (r: ContentType)
    ensures
        leaf_view(r) == Some(scalar_of(v@)),
{
    let cs = chars_of(v);
    let t = chars_equal(&cs, "true");
    let f = chars_equal(&cs, "false");
    proof {
        reveal_strlit("true");
        reveal_strlit("false");
        assert("true"@ =~= seq!['t', 'r', 'u', 'e']);
        assert("false"@ =~= seq!['f', 'a', 'l', 's', 'e']);
    }
    if t {
        return ContentType::Bool(true);
    }
    if f {
        return ContentType::Bool(false);
    }
    let n = cs.len();
    if n == 0 {
        return ContentType::String(string_from_chars(&cs));
    }
    let neg = cs[0] == '-';
    let from: usize = if neg { 1 } else { 0 };
    if from >= n {
        return ContentType::String(string_from_chars(&cs));
    }
    let mut k: usize = from;
    while k < n
        invariant
            from <= k <= n,
            n == cs.len(),
            n > 0,
            cs@ == v@,
            from == (if neg { 1usize } else { 0usize }),
            neg == (cs@[0] == '-'),
            cs@ != seq!['t', 'r', 'u', 'e'],
            cs@ != seq!['f', 'a', 'l', 's', 'e'],
            forall|j: int| from <= j < k ==> is_digit(#[trigger] cs@[j]),
        decreases n - k,
    {
        if !('0' <= cs[k] && cs[k] <= '9') {
            proof {
                assert(!is_digit(cs@[k as int]));
                assert(!all_digits(cs@));
                if neg {
                    assert(cs@.drop_first()[k - 1] == cs@[k as int]);
                    assert(!all_digits(cs@.drop_first()));
                }
                assert(integer_of(cs@) is None);
            }
            return ContentType::String(string_from_chars(&cs));
        }
        k = k + 1;
    }
    let ghost d = cs@.skip(from as int);
    assert(all_digits(d)) by {
        assert forall|i: int| 0 <= i < d.len() implies is_digit(#[trigger] d[i]) by {
            assert(d[i] == cs@[from + i]);
        }
    }
    proof {
        if neg {
            assert(cs@.drop_first() == d);
            assert(!is_digit(cs@[0]));
            assert(!all_digits(cs@));
        } else {
            assert(d =~= cs@);
        }
    }
    match digits_u64(&cs, from) {
        Some(m) => {
            let val: i128 = if neg { -(m as i128) } else { m as i128 };
            if val >= i64::MIN as i128 && val <= i64::MAX as i128 {
                ContentType::Integer(val as i64)
            } else {
                ContentType::String(string_from_chars(&cs))
            }
        },
        None => ContentType::String(string_from_chars(&cs)),
    }
}

// ----------------------------------------------------------------------------------------
// Tokens
// ----------------------------------------------------------------------------------------

/// The errors by which a configuration text is refused.
#[derive(Debug, Clone, Copy, PartialEq, Eq, Structural)]
pub enum AptParseError {
    /// A `"` opens a text that no `"` closes.
    UnterminatedString,
    /// A token stands where the grammar does not allow it.
    UnexpectedToken,
    /// A `}` closes no scope, or a scope is not closed at the end.
    UnbalancedBraces,
    /// A value stands outside of any scope, or a list item directly in a top-level scope.
    TopLevelValue,
    /// The text ends in the middle of a statement.
    UnexpectedEnd,
}

/// A token of the configuration language.
#[derive(Debug, PartialEq, Eq)]
pub enum Token {
    /// A name: a run of characters other than white space, braces, `;`, `:` and `"`.
    Word(String),
    /// A quoted text, without its quotes.
    Text(String),
    /// `{`
    Open,
    /// `}`
    Close,
    /// `;`
    Semicolon,
    /// `:`
    Colon,
}

/// The mathematical form of a [`Token`].
pub enum TokenView {
    Word(Seq<char>),
    Text(Seq<char>),
    Open,
    Close,
    Semicolon,
    Colon,
}

impl View for Token {
    type V = TokenView;

    open spec fn view(&self) -> TokenView {
        match self {
            Token::Word(w) => TokenView::Word(w@),
            Token::Text(t) => TokenView::Text(t@),
            Token::Open => TokenView::Open,
            Token::Close => TokenView::Close,
            Token::Semicolon => TokenView::Semicolon,
            Token::Colon => TokenView::Colon,
        }
    }
}

pub open spec fn tokens_view(v: Seq<Token>) -> Seq<TokenView> {
    v.map_values(|t: Token| t@)
}

/// What the tokenizer is in the middle of.
pub enum LexMode {
    /// Between tokens.
    Normal,
    /// Reading a name.
    Word(Seq<char>),
    /// Reading a quoted text.
    Quoted(Seq<char>),
    /// After a `/` that may open a comment.
    Slash,
    /// In a comment, up to the end of the line.
    Comment,
}

pub open spec fn is_space(c: char) -> bool {
    c == ' ' || c == '\t' || c == '\n' || c == '\r'
}

/// The characters that end a name.
pub open spec fn is_delimiter(c: char) -> bool {
    c == '{' || c == '}' || c == ';' || c == ':' || c == '"'
}

/// Reading `c` between tokens.
pub open spec fn normal_step(toks: Seq<TokenView>, c: char) -> (Seq<TokenView>, LexMode) {
    if is_space(c) {
        (toks, LexMode::Normal)
    } else if c == '{' {
        (toks.push(TokenView::Open), LexMode::Normal)
    } else if c == '}' {
        (toks.push(TokenView::Close), LexMode::Normal)
    } else if c == ';' {
        (toks.push(TokenView::Semicolon), LexMode::Normal)
    } else if c == ':' {
        (toks.push(TokenView::Colon), LexMode::Normal)
    } else if c == '"' {
        (toks, LexMode::Quoted(Seq::empty()))
    } else if c == '/' {
        (toks, LexMode::Slash)
    } else if c == '#' {
        (toks, LexMode::Comment)
    } else {
        (toks, LexMode::Word(seq![c]))
    }
}

/// Reading `c` after the name `w`.
pub open spec fn word_step(toks: Seq<TokenView>, w: Seq<char>, c: char) -> (Seq<TokenView>, LexMode) {
    if is_space(c) {
        (toks.push(TokenView::Word(w)), LexMode::Normal)
    } else if is_delimiter(c) {
        normal_step(toks.push(TokenView::Word(w)), c)
    } else {
        (toks, LexMode::Word(w.push(c)))
    }
}

/// Reading one character.
pub open spec fn lex_step(st: (Seq<TokenView>, LexMode), c: char) -> (Seq<TokenView>, LexMode) {
    let toks = st.0;
    match st.1 {
        LexMode::Normal => normal_step(toks, c),
        LexMode::Word(w) => word_step(toks, w, c),
        LexMode::Quoted(q) => if c == '"' {
            (toks.push(TokenView::Text(q)), LexMode::Normal)
        } else {
            (toks, LexMode::Quoted(q.push(c)))
        },
        LexMode::Slash => if c == '/' {
            (toks, LexMode::Comment)
        } else {
            word_step(toks, seq!['/'], c)
        },
        LexMode::Comment => if c == '\n' {
            (toks, LexMode::Normal)
        } else {
            (toks, LexMode::Comment)
        },
    }
}

/// The tokens read so far from `s`, and what the tokenizer is in the middle of.
pub open spec fn lex_scan(s: Seq<char>) -> (Seq<TokenView>, LexMode)
    decreases s.len(),
{
    if s.len() == 0 {
        (Seq::empty(), LexMode::Normal)
    } else {
        lex_step(lex_scan(s.drop_last()), s.last())
    }
}

/// The tokens of a text; refused when a quoted text is not closed.
pub open spec fn spec_tokenize(s: Seq<char>) -> Result<Seq<TokenView>, AptParseError> {
    let (toks, mode) = lex_scan(s);
    match mode {
        LexMode::Normal => Ok(toks),
        LexMode::Comment => Ok(toks),
        LexMode::Word(w) => Ok(toks.push(TokenView::Word(w))),
        LexMode::Slash => Ok(toks.push(TokenView::Word(seq!['/']))),
        LexMode::Quoted(_) => Err(AptParseError::UnterminatedString),
    }
}

/// The tokenizer's state in executable form.
enum LexState {
    Normal,
    Word(Vec<char>),
    Quoted(Vec<char>),
    Slash,
    Comment,
}

impl View for LexState {
    type V = LexMode;

    closed spec fn view(&self) -> LexMode {
        match self {
            LexState::Normal => LexMode::Normal,
            LexState::Word(w) => LexMode::Word(w@),
            LexState::Quoted(q) => LexMode::Quoted(q@),
            LexState::Slash => LexMode::Slash,
            LexState::Comment => LexMode::Comment,
        }
    }
}

fn push_token(toks: &mut Vec<Token>, t: Token)
    ensures
        tokens_view(final(toks)@) == tokens_view(old(toks)@).push(t@),
{
    toks.push(t);
    assert(tokens_view(toks@) =~= tokens_view(old(toks)@).push(t@));
}

fn lex_normal(toks: &mut Vec<Token>, c: char) -> (m: LexState)
    ensures
        (tokens_view(final(toks)@), m@) == normal_step(tokens_view(old(toks)@), c),
{
    if c == ' ' || c == '\t' || c == '\n' || c == '\r' {
        LexState::Normal
    } else if c == '{' {
        push_token(toks, Token::Open);
        LexState::Normal
    } else if c == '}' {
        push_token(toks, Token::Close);
        LexState::Normal
    } else if c == ';' {
        push_token(toks, Token::Semicolon);
        LexState::Normal
    } else if c == ':' {
        push_token(toks, Token::Colon);
        LexState::Normal
    } else if c == '"' {
        let q: Vec<char> = Vec::new();
        assert(q@ =~= Seq::<char>::empty());
        LexState::Quoted(q)
    } else if c == '/' {
        LexState::Slash
    } else if c == '#' {
        LexState::Comment
    } else {
        let mut w: Vec<char> = Vec::new();
        w.push(c);
        assert(w@ =~= seq![c]);
        LexState::Word(w)
    }
}

fn lex_word(toks: &mut Vec<Token>, w: Vec<char>, c: char) -> (m: LexState)
    ensures
        (tokens_view(final(toks)@), m@) == word_step(tokens_view(old(toks)@), w@, c),
{
    if c == ' ' || c == '\t' || c == '\n' || c == '\r' {
        push_token(toks, Token::Word(string_from_chars(&w)));
        LexState::Normal
    } else if c == '{' || c == '}' || c == ';' || c == ':' || c == '"' {
        push_token(toks, Token::Word(string_from_chars(&w)));
        lex_normal(toks, c)
    } else {
        let mut w = w;
        w.push(c);
        LexState::Word(w)
    }
}

fn lex_char(toks: &mut Vec<Token>, st: LexState, c: char) -> (m: LexState)
    ensures
        (tokens_view(final(toks)@), m@) == lex_step((tokens_view(old(toks)@), st@), c),
{
    match st {
        LexState::Normal => lex_normal(toks, c),
        LexState::Word(w) => lex_word(toks, w, c),
        LexState::Quoted(q) => {
            if c == '"' {
                push_token(toks, Token::Text(string_from_chars(&q)));
                LexState::Normal
            } else {
                let mut q = q;
                q.push(c);
                LexState::Quoted(q)
            }
        },
        LexState::Slash => {
            if c == '/' {
                LexState::Comment
            } else {
                let mut w: Vec<char> = Vec::new();
                w.push('/');
                assert(w@ =~= seq!['/']);
                lex_word(toks, w, c)
            }
        },
        LexState::Comment => {
            if c == '\n' {
                LexState::Normal
            } else {
                LexState::Comment
            }
        },
    }
}

/// The tokens of a configuration text (see [`spec_tokenize`]).
pub fn tokenize(content: &str) -> (r: Result<Vec<Token>, AptParseError>)
    ensures
        match r {
            Ok(toks) => spec_tokenize(content@) == Ok::<Seq<TokenView>, AptParseError>(
                tokens_view(toks@),
            ),
            Err(e) => spec_tokenize(content@) == Err::<Seq<TokenView>, AptParseError>(e),
        },
{
    let cs = chars_of(content);
    let mut toks: Vec<Token> = Vec::new();
    let mut st = LexState::Normal;
    let mut i: usize = 0;
    assert(tokens_view(toks@) =~= Seq::<TokenView>::empty());
    while i < cs.len()
        invariant
            i <= cs.len(),
            cs@ == content@,
            lex_scan(cs@.take(i as int)) == (tokens_view(toks@), st@),
        decreases cs.len() - i,
    {
        assert(cs@.take(i + 1).drop_last() =~= cs@.take(i as int));
        st = lex_char(&mut toks, st, cs[i]);
        i = i + 1;
    }
    assert(cs@.take(cs.len() as int) =~= cs@);
    match st {
        LexState::Normal => Ok(toks),
        LexState::Comment => Ok(toks),
        LexState::Word(w) => {
            push_token(&mut toks, Token::Word(string_from_chars(&w)));
            Ok(toks)
        },
        LexState::Slash => {
            let mut w: Vec<char> = Vec::new();
            w.push('/');
            assert(w@ =~= seq!['/']);
            push_token(&mut toks, Token::Word(string_from_chars(&w)));
            Ok(toks)
        },
        LexState::Quoted(_) => Err(AptParseError::UnterminatedString),
    }
}

// ----------------------------------------------------------------------------------------
// Statements
// ----------------------------------------------------------------------------------------

/// What an entry sets: a value, or one more item of a list.
pub enum EntryLeaf {
    Value(Seq<char>),
    Item(Seq<char>),
}

/// One setting read from the text: the full path it applies to, and what it sets there.
pub struct EntryView {
    pub path: Seq<Seq<char>>,
    pub leaf: EntryLeaf,
}

/// What the statement reader is in the middle of.
pub enum ParseMode {
    /// Between statements.
    Idle,
    /// After the names of a path.
    AfterName(Seq<Seq<char>>),
    /// After a path and one `:`.
    AfterColon(Seq<Seq<char>>),
    /// After a path and `::`.
    AfterSeparator(Seq<Seq<char>>),
    /// After a path and its quoted value.
    AfterValue(Seq<Seq<char>>, Seq<char>),
    /// After a quoted list item.
    AfterItem(Seq<char>),
    /// After the `}` that closes a scope.
    AfterClose,
}

/// The statement reader's state: where it is, the path of the open scopes, the length of that
/// path before each open scope, and the entries read so far.
pub struct ParseState {
    pub mode: ParseMode,
    pub prefix: Seq<Seq<char>>,
    pub marks: Seq<nat>,
    pub entries: Seq<EntryView>,
}

/// The marks of the open scopes never decrease and never pass the length of the path.
pub open spec fn wf_state(st: ParseState) -> bool {
    &&& forall|i: int, j: int| 0 <= i <= j < st.marks.len() ==> st.marks[i] <= st.marks[j]
    &&& forall|i: int| 0 <= i < st.marks.len() ==> st.marks[i] <= st.prefix.len()
}

pub open spec fn initial_state() -> ParseState {
    ParseState {
        mode: ParseMode::Idle,
        prefix: Seq::empty(),
        marks: Seq::empty(),
        entries: Seq::empty(),
    }
}

/// Records an entry; a path of fewer than two names has no scope to go in.
pub open spec fn emit(st: ParseState, path: Seq<Seq<char>>, leaf: EntryLeaf) -> Result<
    ParseState,
    AptParseError,
> {
    if path.len() < 2 {
        Err(AptParseError::TopLevelValue)
    } else {
        Ok(ParseState { mode: ParseMode::Idle, entries: st.entries.push(EntryView { path, leaf }), ..st })
    }
}

/// Reading a token between statements.
pub open spec fn idle_step(st: ParseState, t: TokenView) -> Result<ParseState, AptParseError> {
    match t {
        TokenView::Word(w) => Ok(ParseState { mode: ParseMode::AfterName(seq![w]), ..st }),
        TokenView::Text(v) => Ok(ParseState { mode: ParseMode::AfterItem(v), ..st }),
        TokenView::Close => if st.marks.len() == 0 {
            Err(AptParseError::UnbalancedBraces)
        } else {
            Ok(
                ParseState {
                    mode: ParseMode::AfterClose,
                    prefix: st.prefix.take(st.marks.last() as int),
                    marks: st.marks.drop_last(),
                    entries: st.entries,
                },
            )
        },
        TokenView::Semicolon => Ok(ParseState { mode: ParseMode::Idle, ..st }),
        _ => Err(AptParseError::UnexpectedToken),
    }
}

/// Reading one token.
pub open spec fn parse_step(st: ParseState, t: TokenView) -> Result<ParseState, AptParseError> {
    match st.mode {
        ParseMode::Idle => idle_step(st, t),
        ParseMode::AfterName(p) => match t {
            TokenView::Colon => Ok(ParseState { mode: ParseMode::AfterColon(p), ..st }),
            TokenView::Text(v) => Ok(ParseState { mode: ParseMode::AfterValue(p, v), ..st }),
            TokenView::Open => Ok(
                ParseState {
                    mode: ParseMode::Idle,
                    prefix: st.prefix + p,
                    marks: st.marks.push(st.prefix.len()),
                    entries: st.entries,
                },
            ),
            _ => Err(AptParseError::UnexpectedToken),
        },
        ParseMode::AfterColon(p) => match t {
            TokenView::Colon => Ok(ParseState { mode: ParseMode::AfterSeparator(p), ..st }),
            _ => Err(AptParseError::UnexpectedToken),
        },
        ParseMode::AfterSeparator(p) => match t {
            TokenView::Word(w) => Ok(ParseState { mode: ParseMode::AfterName(p.push(w)), ..st }),
            _ => Err(AptParseError::UnexpectedToken),
        },
        ParseMode::AfterValue(p, v) => match t {
            TokenView::Semicolon => emit(st, st.prefix + p, EntryLeaf::Value(v)),
            _ => Err(AptParseError::UnexpectedToken),
        },
        ParseMode::AfterItem(v) => match t {
            TokenView::Semicolon => emit(st, st.prefix, EntryLeaf::Item(v)),
            _ => Err(AptParseError::UnexpectedToken),
        },
        ParseMode::AfterClose => match t {
            TokenView::Semicolon => Ok(ParseState { mode: ParseMode::Idle, ..st }),
            _ => idle_step(ParseState { mode: ParseMode::Idle, ..st }, t),
        },
    }
}

/// The statement reader's state after the tokens `toks`.
pub open spec fn parse_scan(toks: Seq<TokenView>) -> Result<ParseState, AptParseError>
    decreases toks.len(),
{
    if toks.len() == 0 {
        Ok(initial_state())
    } else {
        match parse_scan(toks.drop_last()) {
            Err(e) => Err(e),
            Ok(st) => parse_step(st, toks.last()),
        }
    }
}

/// The entries that a token sequence sets, in order; refused when a statement is cut short
/// or a scope is left open.
pub open spec fn spec_statements(toks: Seq<TokenView>) -> Result<Seq<EntryView>, AptParseError> {
    match parse_scan(toks) {
        Err(e) => Err(e),
        Ok(st) => match st.mode {
            ParseMode::Idle | ParseMode::AfterClose => if st.marks.len() == 0 {
                Ok(st.entries)
            } else {
                Err(AptParseError::UnbalancedBraces)
            },
            _ => Err(AptParseError::UnexpectedEnd),
        },
    }
}

/// The entries of a configuration text.
pub open spec fn spec_entries(s: Seq<char>) -> Result<Seq<EntryView>, AptParseError> {
    match spec_tokenize(s) {
        Err(e) => Err(e),
        Ok(toks) => spec_statements(toks),
    }
}

/// A setting in executable form.
enum Leaf {
    Value(String),
    Item(String),
}

spec fn leaf_spec(l: Leaf) -> EntryLeaf {
    match l {
        Leaf::Value(v) => EntryLeaf::Value(v@),
        Leaf::Item(v) => EntryLeaf::Item(v@),
    }
}

/// An entry in executable form.
struct Entry {
    path: Vec<String>,
    leaf: Leaf,
}

impl View for Entry {
    type V = EntryView;

    closed spec fn view(&self) -> EntryView {
        EntryView { path: self.path.deep_view(), leaf: leaf_spec(self.leaf) }
    }
}

spec fn entries_view(v: Seq<Entry>) -> Seq<EntryView> {
    v.map_values(|e: Entry| e@)
}

/// The statement reader's mode in executable form.
enum Pending {
    Idle,
    AfterName(Vec<String>),
    AfterColon(Vec<String>),
    AfterSeparator(Vec<String>),
    AfterValue(Vec<String>, String),
    AfterItem(String),
    AfterClose,
}

impl View for Pending {
    type V = ParseMode;

    closed spec fn view(&self) -> ParseMode {
        match self {
            Pending::Idle => ParseMode::Idle,
            Pending::AfterName(p) => ParseMode::AfterName(p.deep_view()),
            Pending::AfterColon(p) => ParseMode::AfterColon(p.deep_view()),
            Pending::AfterSeparator(p) => ParseMode::AfterSeparator(p.deep_view()),
            Pending::AfterValue(p, v) => ParseMode::AfterValue(p.deep_view(), v@),
            Pending::AfterItem(v) => ParseMode::AfterItem(v@),
            Pending::AfterClose => ParseMode::AfterClose,
        }
    }
}

/// The statement reader in executable form.
struct Reader {
    mode: Pending,
    prefix: Vec<String>,
    marks: Vec<usize>,
    entries: Vec<Entry>,
}

impl View for Reader {
    type V = ParseState;

    closed spec fn view(&self) -> ParseState {
        ParseState {
            mode: self.mode@,
            prefix: self.prefix.deep_view(),
            marks: self.marks@.map_values(|m: usize| m as nat),
            entries: entries_view(self.entries@),
        }
    }
}

spec fn reader_result(r: Result<Reader, AptParseError>) -> Result<ParseState, AptParseError> {
    match r {
        Ok(rd) => Ok(rd@),
        Err(e) => Err(e),
    }
}

/// A copy of a path.
fn copy_path(p: &Vec<String>) -> (r: Vec<String>)
    ensures
        r.deep_view() == p.deep_view(),
{
    let mut r: Vec<String> = Vec::new();
    let mut i: usize = 0;
    while i < p.len()
        invariant
            i <= p.len(),
            r.deep_view() == p.deep_view().take(i as int),
        decreases p.len() - i,
    {
        let ghost before = r.deep_view();
        r.push(p[i].clone());
        i = i + 1;
        assert(r.deep_view() =~= before.push(p.deep_view()[i - 1]));
        assert(p.deep_view().take(i as int) =~= p.deep_view().take(i - 1).push(
            p.deep_view()[i - 1],
        ));
    }
    assert(p.deep_view().take(p.len() as int) =~= p.deep_view());
    r
}

/// The path `a` followed by `b`.
fn concat_paths(a: &Vec<String>, b: &Vec<String>) -> (r: Vec<String>)
    ensures
        r.deep_view() == a.deep_view() + b.deep_view(),
{
    let mut r = copy_path(a);
    let mut i: usize = 0;
    while i < b.len()
        invariant
            i <= b.len(),
            r.deep_view() == a.deep_view() + b.deep_view().take(i as int),
        decreases b.len() - i,
    {
        let ghost before = r.deep_view();
        r.push(b[i].clone());
        i = i + 1;
        assert(r.deep_view() =~= before.push(b.deep_view()[i - 1]));
        assert(a.deep_view() + b.deep_view().take(i as int) =~= a.deep_view() + b.deep_view().take(
            i - 1,
        ) + seq![b.deep_view()[i - 1]]);
    }
    assert(b.deep_view().take(b.len() as int) =~= b.deep_view());
    r
}

/// A path of one name.
fn single_path(w: &String) -> (r: Vec<String>)
    ensures
        r.deep_view() == seq![w@],
{
    let mut r: Vec<String> = Vec::new();
    r.push(w.clone());
    assert(r.deep_view() =~= seq![w@]);
    r
}

/// Records an entry (see [`emit`]).
fn emit_exec(rd: Reader, path: Vec<String>, leaf: Leaf) -> (r: Result<Reader, AptParseError>)
    ensures
        reader_result(r) == emit(rd@, path.deep_view(), leaf_spec(leaf)),
{
    if path.len() < 2 {
        Err(AptParseError::TopLevelValue)
    } else {
        let mut rd = rd;
        let e = Entry { path, leaf };
        let ghost before = entries_view(rd.entries@);
        rd.entries.push(e);
        assert(entries_view(rd.entries@) =~= before.push(e@));
        rd.mode = Pending::Idle;
        Ok(rd)
    }
}

/// Reading a token between statements (see [`idle_step`]).
fn idle_exec(rd: Reader, t: &Token) -> (r: Result<Reader, AptParseError>)
    requires
        wf_state(rd@),
    ensures
        reader_result(r) == idle_step(rd@, t@),
{
    let mut rd = rd;
    match t {
        Token::Word(w) => {
            rd.mode = Pending::AfterName(single_path(w));
            Ok(rd)
        },
        Token::Text(v) => {
            rd.mode = Pending::AfterItem(v.clone());
            Ok(rd)
        },
        Token::Close => {
            let ghost mv = rd.marks@.map_values(|m: usize| m as nat);
            match rd.marks.pop() {
                None => Err(AptParseError::UnbalancedBraces),
                Some(m) => {
                    assert(rd.marks@.map_values(|m: usize| m as nat) =~= mv.drop_last());
                    assert(m as nat == mv.last());
                    let ghost before = rd.prefix.deep_view();
                    rd.prefix.truncate(m);
                    assert(rd.prefix.deep_view() =~= before.take(m as int));
                    rd.mode = Pending::AfterClose;
                    Ok(rd)
                },
            }
        },
        Token::Semicolon => {
            rd.mode = Pending::Idle;
            Ok(rd)
        },
        _ => Err(AptParseError::UnexpectedToken),
    }
}

/// Reading one token (see [`parse_step`]).
fn step_exec(rd: Reader, t: &Token) -> (r: Result<Reader, AptParseError>)
    requires
        wf_state(rd@),
    ensures
        reader_result(r) == parse_step(rd@, t@),
{
    let ghost st0 = rd@;
    let mut rd = rd;
    let mut mode = Pending::Idle;
    std::mem::swap(&mut mode, &mut rd.mode);
    assert(st0 == ParseState { mode: mode@, ..rd@ });
    match mode {
        Pending::Idle => idle_exec(rd, t),
        Pending::AfterName(p) => match t {
            Token::Colon => {
                rd.mode = Pending::AfterColon(p);
                Ok(rd)
            },
            Token::Text(v) => {
                rd.mode = Pending::AfterValue(p, v.clone());
                Ok(rd)
            },
            Token::Open => {
                let n = rd.prefix.len();
                let ghost mv = rd.marks@.map_values(|m: usize| m as nat);
                rd.marks.push(n);
                assert(rd.marks@.map_values(|m: usize| m as nat) =~= mv.push(n as nat));
                rd.prefix = concat_paths(&rd.prefix, &p);
                Ok(rd)
            },
            _ => Err(AptParseError::UnexpectedToken),
        },
        Pending::AfterColon(p) => match t {
            Token::Colon => {
                rd.mode = Pending::AfterSeparator(p);
                Ok(rd)
            },
            _ => Err(AptParseError::UnexpectedToken),
        },
        Pending::AfterSeparator(p) => match t {
            Token::Word(w) => {
                let mut p = p;
                let ghost before = p.deep_view();
                p.push(w.clone());
                assert(p.deep_view() =~= before.push(w@));
                rd.mode = Pending::AfterName(p);
                Ok(rd)
            },
            _ => Err(AptParseError::UnexpectedToken),
        },
        Pending::AfterValue(p, v) => match t {
            Token::Semicolon => {
                let path = concat_paths(&rd.prefix, &p);
                emit_exec(rd, path, Leaf::Value(v))
            },
            _ => Err(AptParseError::UnexpectedToken),
        },
        Pending::AfterItem(v) => match t {
            Token::Semicolon => {
                let path = copy_path(&rd.prefix);
                emit_exec(rd, path, Leaf::Item(v))
            },
            _ => Err(AptParseError::UnexpectedToken),
        },
        Pending::AfterClose => match t {
            Token::Semicolon => Ok(rd),
            _ => idle_exec(rd, t),
        },
    }
}

/// Reading a token keeps the marks in order.
proof fn lemma_step_wf(st: ParseState, t: TokenView)
    requires
        wf_state(st),
    ensures
        parse_step(st, t) matches Ok(st2) ==> wf_state(st2),
{
    match parse_step(st, t) {
        Ok(st2) => {
            if st2.marks.len() < st.marks.len() {
                assert forall|i: int| 0 <= i < st2.marks.len() implies st2.marks[i] <= st2.prefix.len() by {
                    assert(st2.marks[i] == st.marks[i]);
                    assert(st.marks[i] <= st.marks.last());
                }
                assert forall|i: int, j: int| 0 <= i <= j < st2.marks.len() implies st2.marks[i]
                    <= st2.marks[j] by {
                    assert(st2.marks[i] == st.marks[i]);
                    assert(st2.marks[j] == st.marks[j]);
                }
            } else if st2.marks.len() > st.marks.len() {
                assert(st2.marks == st.marks.push(st.prefix.len()));
                assert(st2.prefix.len() >= st.prefix.len());
                assert forall|i: int| 0 <= i < st2.marks.len() implies st2.marks[i] <= st2.prefix.len() by {
                    if i < st.marks.len() {
                        assert(st2.marks[i] == st.marks[i]);
                    }
                }
                assert forall|i: int, j: int| 0 <= i <= j < st2.marks.len() implies st2.marks[i]
                    <= st2.marks[j] by {
                    if j < st.marks.len() {
                        assert(st2.marks[i] == st.marks[i]);
                        assert(st2.marks[j] == st.marks[j]);
                    } else if i < st.marks.len() {
                        assert(st2.marks[i] == st.marks[i]);
                        assert(st2.marks[j] == st.prefix.len());
                    }
                }
            }
        },
        Err(_) => {},
    }
}

/// The entries that a token sequence sets (see [`spec_statements`]).
fn read_statements(toks: &Vec<Token>) -> (r: Result<Vec<Entry>, AptParseError>)
    ensures
        match r {
            Ok(es) => spec_statements(tokens_view(toks@)) == Ok::<Seq<EntryView>, AptParseError>(
                entries_view(es@),
            ),
            Err(e) => spec_statements(tokens_view(toks@)) == Err::<Seq<EntryView>, AptParseError>(
                e,
            ),
        },
{
    let ghost tv = tokens_view(toks@);
    let mut rd = Reader {
        mode: Pending::Idle,
        prefix: Vec::new(),
        marks: Vec::new(),
        entries: Vec::new(),
    };
    assert(rd@ =~= initial_state()) by {
        assert(rd.prefix.deep_view() =~= Seq::<Seq<char>>::empty());
        assert(rd.marks@.map_values(|m: usize| m as nat) =~= Seq::<nat>::empty());
        assert(entries_view(rd.entries@) =~= Seq::<EntryView>::empty());
    }
    let mut i: usize = 0;
    while i < toks.len()
        invariant
            i <= toks.len(),
            tv == tokens_view(toks@),
            parse_scan(tv.take(i as int)) == Ok::<ParseState, AptParseError>(rd@),
            wf_state(rd@),
        decreases toks.len() - i,
    {
        assert(tv.take(i + 1).drop_last() =~= tv.take(i as int));
        assert(tv.take(i + 1).last() == toks@[i as int]@);
        proof {
            lemma_step_wf(rd@, toks@[i as int]@);
        }
        match step_exec(rd, &toks[i]) {
            Ok(next) => {
                rd = next;
            },
            Err(e) => {
                proof {
                    lemma_scan_error_sticks(tv, i as int + 1, e);
                }
                return Err(e);
            },
        }
        i = i + 1;
    }
    assert(tv.take(toks.len() as int) =~= tv);
    match rd.mode {
        Pending::Idle | Pending::AfterClose => {
            if rd.marks.len() == 0 {
                Ok(rd.entries)
            } else {
                Err(AptParseError::UnbalancedBraces)
            }
        },
        _ => Err(AptParseError::UnexpectedEnd),
    }
}

/// Once the reader has refused a prefix of the tokens, it refuses the whole sequence with the
/// same error.
proof fn lemma_scan_error_sticks(toks: Seq<TokenView>, i: int, e: AptParseError)
    requires
        0 <= i <= toks.len(),
        parse_scan(toks.take(i)) == Err::<ParseState, AptParseError>(e),
    ensures
        parse_scan(toks) == Err::<ParseState, AptParseError>(e),
    decreases toks.len() - i,
{
    if i < toks.len() {
        assert(toks.take(i + 1).drop_last() =~= toks.take(i));
        lemma_scan_error_sticks(toks, i + 1, e);
    } else {
        assert(toks.take(i) =~= toks);
    }
}

// ----------------------------------------------------------------------------------------
// The tree and its meaning
// ----------------------------------------------------------------------------------------

/// The position of the first entry under key `k`; `content.len()` when there is none.
pub open spec fn key_index(content: Seq<(String, ContentType)>, k: Seq<char>) -> int
    decreases content.len(),
{
    if content.len() == 0 {
        0
    } else if content[0].0@ == k {
        0
    } else {
        1 + key_index(content.drop_first(), k)
    }
}

/// The position of the first scope named `k`; `scopes.len()` when there is none.
pub open spec fn scope_index(scopes: Seq<Scope>, k: Seq<char>) -> int
    decreases scopes.len(),
{
    if scopes.len() == 0 {
        0
    } else if scopes[0].name@ == k {
        0
    } else {
        1 + scope_index(scopes.drop_first(), k)
    }
}

/// The value found by following the path `q` through the entries of a scope, when it leads
/// to a value that is not a scope.
pub open spec fn lookup(content: Seq<(String, ContentType)>, q: Seq<Seq<char>>) -> Option<LeafView>
    decreases q.len(),
{
    if q.len() == 0 {
        None
    } else {
        let i = key_index(content, q[0]);
        if 0 <= i < content.len() {
            match content[i].1 {
                ContentType::Scope(sc) => if q.len() == 1 {
                    None
                } else {
                    lookup(sc.content@, q.drop_first())
                },
                other => if q.len() == 1 {
                    leaf_view(other)
                } else {
                    None
                },
            }
        } else {
            None
        }
    }
}

/// The value at the full path `q` of a configuration, when there is one that is not a scope.
pub open spec fn config_lookup(c: AptConfig, q: Seq<Seq<char>>) -> Option<LeafView> {
    if q.len() < 2 {
        None
    } else {
        let i = scope_index(c.scopes@, q[0]);
        if 0 <= i < c.scopes@.len() {
            lookup(c.scopes@[i].content@, q.drop_first())
        } else {
            None
        }
    }
}

/// `a` is a prefix of `b` (or equal to it).
pub open spec fn is_prefix_of(a: Seq<Seq<char>>, b: Seq<Seq<char>>) -> bool {
    a.len() <= b.len() && b.take(a.len() as int) == a
}

/// The value at `q` after an entry, given the value before: the entry's own path gets its
/// value (a list grows by its item), paths above or below it lose theirs, others keep them.
pub open spec fn apply_entry(prev: Option<LeafView>, e: EntryView, q: Seq<Seq<char>>) -> Option<
    LeafView,
> {
    if q == e.path {
        match e.leaf {
            EntryLeaf::Value(v) => Some(scalar_of(v)),
            EntryLeaf::Item(s) => match prev {
                Some(LeafView::Items(l)) => Some(LeafView::Items(l.push(s))),
                _ => Some(LeafView::Items(seq![s])),
            },
        }
    } else if is_prefix_of(q, e.path) || is_prefix_of(e.path, q) {
        None
    } else {
        prev
    }
}

/// The value at `q` once all the entries are applied in order.
pub open spec fn leaf_after(es: Seq<EntryView>, q: Seq<Seq<char>>) -> Option<LeafView>
    decreases es.len(),
{
    if es.len() == 0 {
        None
    } else {
        apply_entry(leaf_after(es.drop_last(), q), es.last(), q)
    }
}

/// The position of the first entry under key `k`; `content.len()` when there is none.
pub open spec fn entry_pos(content: Seq<(Seq<char>, NodeView)>, k: Seq<char>) -> int
    decreases content.len(),
{
    if content.len() == 0 {
        0
    } else if content[0].0 == k {
        0
    } else {
        1 + entry_pos(content.drop_first(), k)
    }
}

/// The position of the first top-level scope named `k`; `scopes.len()` when there is none.
pub open spec fn scope_pos(scopes: Seq<ScopeView>, k: Seq<char>) -> int
    decreases scopes.len(),
{
    if scopes.len() == 0 {
        0
    } else if scopes[0].name == k {
        0
    } else {
        1 + scope_pos(scopes.drop_first(), k)
    }
}

/// What an entry puts at the end of its path, given what stood there: a value, or the list
/// grown by one item (a new list when there was none).
pub open spec fn leaf_node(leaf: EntryLeaf, old: Option<NodeView>) -> NodeView {
    match leaf {
        EntryLeaf::Value(v) => NodeView::Leaf(scalar_of(v)),
        EntryLeaf::Item(s) => match old {
            Some(NodeView::Leaf(LeafView::Items(l))) => NodeView::Leaf(LeafView::Items(l.push(s))),
            _ => NodeView::Leaf(LeafView::Items(seq![s])),
        },
    }
}

/// The entries of the scope that stood at a key: none when there was no scope.
pub open spec fn entries_below(old: Option<NodeView>) -> Seq<(Seq<char>, NodeView)> {
    match old {
        Some(NodeView::Branch(sc)) => sc.content,
        _ => Seq::empty(),
    }
}

/// The entries of a scope after an entry at the path `path` below it: the first name is
/// looked up among the keys; the entry found is replaced where it stands, or a new one is
/// added at the end. At the last name the entry gets its value; above it, a scope named by
/// its key, holding the entries of the scope that stood there (if any) with the rest of the
/// path applied.
pub open spec fn tree_insert(
    content: Seq<(Seq<char>, NodeView)>,
    path: Seq<Seq<char>>,
    leaf: EntryLeaf,
) -> Seq<(Seq<char>, NodeView)>
    decreases path.len(),
{
    if path.len() == 0 {
        content
    } else {
        let k = path[0];
        let i = entry_pos(content, k);
        let old = if i < content.len() {
            Some(content[i].1)
        } else {
            None
        };
        let node = if path.len() == 1 {
            leaf_node(leaf, old)
        } else {
            NodeView::Branch(
                ScopeView {
                    name: k,
                    content: tree_insert(entries_below(old), path.drop_first(), leaf),
                },
            )
        };
        if i < content.len() {
            content.update(i, (k, node))
        } else {
            content.push((k, node))
        }
    }
}

/// The top-level scopes after an entry: the scope named by the first name of its path gets
/// the rest of the path applied to its entries, where it stands; a new scope of that name is
/// added at the end when there is none.
pub open spec fn config_insert(scopes: Seq<ScopeView>, e: EntryView) -> Seq<ScopeView> {
    let k = e.path[0];
    let i = scope_pos(scopes, k);
    if i < scopes.len() {
        scopes.update(
            i,
            ScopeView {
                name: scopes[i].name,
                content: tree_insert(scopes[i].content, e.path.drop_first(), e.leaf),
            },
        )
    } else {
        scopes.push(
            ScopeView { name: k, content: tree_insert(Seq::empty(), e.path.drop_first(), e.leaf) },
        )
    }
}

/// The tree that a sequence of entries builds, applied in order.
pub open spec fn tree_of(es: Seq<EntryView>) -> Seq<ScopeView>
    decreases es.len(),
{
    if es.len() == 0 {
        Seq::empty()
    } else {
        config_insert(tree_of(es.drop_last()), es.last())
    }
}

/// No two entries share a key.
pub open spec fn keys_distinct(content: Seq<(Seq<char>, NodeView)>) -> bool {
    forall|i: int, j: int| 0 <= i < j < content.len() ==> content[i].0 != content[j].0
}

/// The entries of a well-formed scope: keys are distinct, and every scope below is named by
/// its key, holds at least one entry and is itself well-formed.
pub open spec fn content_well_formed(content: Seq<(Seq<char>, NodeView)>) -> bool
    decreases content,
{
    &&& keys_distinct(content)
    &&& forall|i: int|
        0 <= i < content.len() ==> match #[trigger] content[i].1 {
            NodeView::Branch(sc) => sc.name == content[i].0 && sc.content.len() > 0
                && content_well_formed(sc.content),
            NodeView::Leaf(_) => true,
        }
}

/// A well-formed configuration: no two top-level scopes share a name, and each holds at
/// least one entry and is well-formed.
pub open spec fn config_well_formed(scopes: Seq<ScopeView>) -> bool {
    &&& forall|i: int, j: int| 0 <= i < j < scopes.len() ==> scopes[i].name != scopes[j].name
    &&& forall|i: int|
        0 <= i < scopes.len() ==> (#[trigger] scopes[i]).content.len() > 0 && content_well_formed(
            scopes[i].content,
        )
}

/// What `entry_pos` tells of the entries before and at it.
proof fn lemma_entry_pos_first(content: Seq<(Seq<char>, NodeView)>, k: Seq<char>)
    ensures
        0 <= entry_pos(content, k) <= content.len(),
        forall|j: int| 0 <= j < entry_pos(content, k) ==> (#[trigger] content[j]).0 != k,
        entry_pos(content, k) < content.len() ==> content[entry_pos(content, k)].0 == k,
    decreases content.len(),
{
    if content.len() > 0 && content[0].0 != k {
        lemma_entry_pos_first(content.drop_first(), k);
        assert forall|j: int| 0 <= j < entry_pos(content, k) implies (#[trigger] content[j]).0
            != k by {
            if j > 0 {
                assert(content[j] == content.drop_first()[j - 1]);
            }
        }
    }
}

/// What `scope_pos` tells of the scopes before and at it.
proof fn lemma_scope_pos_first(scopes: Seq<ScopeView>, k: Seq<char>)
    ensures
        0 <= scope_pos(scopes, k) <= scopes.len(),
        forall|j: int| 0 <= j < scope_pos(scopes, k) ==> (#[trigger] scopes[j]).name != k,
        scope_pos(scopes, k) < scopes.len() ==> scopes[scope_pos(scopes, k)].name == k,
    decreases scopes.len(),
{
    if scopes.len() > 0 && scopes[0].name != k {
        lemma_scope_pos_first(scopes.drop_first(), k);
        assert forall|j: int| 0 <= j < scope_pos(scopes, k) implies (#[trigger] scopes[j]).name
            != k by {
            if j > 0 {
                assert(scopes[j] == scopes.drop_first()[j - 1]);
            }
        }
    }
}

/// Applying an entry keeps the entries of a scope well-formed, and leaves at least one.
proof fn lemma_tree_insert_wf(content: Seq<(Seq<char>, NodeView)>, path: Seq<Seq<char>>, leaf: EntryLeaf)
    requires
        content_well_formed(content),
        path.len() >= 1,
    ensures
        content_well_formed(tree_insert(content, path, leaf)),
        tree_insert(content, path, leaf).len() > 0,
    decreases path.len(),
{
    let k = path[0];
    lemma_entry_pos_first(content, k);
    let i = entry_pos(content, k);
    let old = if i < content.len() {
        Some(content[i].1)
    } else {
        None
    };
    if path.len() > 1 {
        assert(content_well_formed(entries_below(old))) by {
            if i < content.len() {
                let _ = content[i].1;
            }
        }
        lemma_tree_insert_wf(entries_below(old), path.drop_first(), leaf);
    }
    let r = tree_insert(content, path, leaf);
    if i < content.len() {
        assert(r =~= content.update(i, (k, r[i].1)));
    } else {
        assert(r =~= content.push((k, r[i].1)));
    }
    assert forall|a: int, b: int| 0 <= a < b < r.len() implies r[a].0 != r[b].0 by {
        if a != i && b != i {
            assert(r[a] == content[a] && r[b] == content[b]);
        } else if a == i {
            assert(r[b] == content[b]);
        } else {
            assert(r[a] == content[a]);
        }
    }
    assert forall|j: int| 0 <= j < r.len() implies match #[trigger] r[j].1 {
        NodeView::Branch(sc) => sc.name == r[j].0 && sc.content.len() > 0 && content_well_formed(
            sc.content,
        ),
        NodeView::Leaf(_) => true,
    } by {
        if j != i {
            assert(r[j] == content[j]);
            let _ = content[j].1;
        }
    }
}

/// Applying an entry of at least two names keeps a configuration well-formed.
proof fn lemma_config_insert_wf(scopes: Seq<ScopeView>, e: EntryView)
    requires
        config_well_formed(scopes),
        e.path.len() >= 2,
    ensures
        config_well_formed(config_insert(scopes, e)),
{
    let k = e.path[0];
    lemma_scope_pos_first(scopes, k);
    let i = scope_pos(scopes, k);
    let r = config_insert(scopes, e);
    if i < scopes.len() {
        let _ = scopes[i];
        lemma_tree_insert_wf(scopes[i].content, e.path.drop_first(), e.leaf);
    } else {
        assert(content_well_formed(Seq::<(Seq<char>, NodeView)>::empty()));
        lemma_tree_insert_wf(Seq::empty(), e.path.drop_first(), e.leaf);
    }
    assert forall|a: int, b: int| 0 <= a < b < r.len() implies r[a].name != r[b].name by {
        if a != i && b != i {
            assert(r[a] == scopes[a] && r[b] == scopes[b]);
        } else if a == i {
            assert(r[b] == scopes[b]);
        } else {
            assert(r[a] == scopes[a]);
        }
    }
    assert forall|j: int| 0 <= j < r.len() implies (#[trigger] r[j]).content.len() > 0
        && content_well_formed(r[j].content) by {
        if j != i {
            assert(r[j] == scopes[j]);
        }
    }
}

/// The tree that entries of at least two names build is well-formed.
proof fn lemma_tree_of_wf(es: Seq<EntryView>)
    requires
        entries_placed(es),
    ensures
        config_well_formed(tree_of(es)),
    decreases es.len(),
{
    if es.len() > 0 {
        assert(entries_placed(es.drop_last())) by {
            assert forall|i: int| 0 <= i < es.drop_last().len() implies (
            #[trigger] es.drop_last()[i]).path.len() >= 2 by {
                assert(es.drop_last()[i] == es[i]);
            }
        }
        lemma_tree_of_wf(es.drop_last());
        assert(es[es.len() - 1] == es.last());
        lemma_config_insert_wf(tree_of(es.drop_last()), es.last());
    }
}

/// The mathematical form of entries, one by one.
proof fn lemma_content_view(s: Seq<(String, ContentType)>)
    ensures
        content_view(s).len() == s.len(),
        forall|i: int|
            0 <= i < s.len() ==> #[trigger] content_view(s)[i] == (s[i].0@, node_view(s[i].1)),
    decreases s.len(),
{
    if s.len() > 0 {
        let init = s.subrange(0, s.len() - 1);
        lemma_content_view(init);
        assert forall|i: int| 0 <= i < s.len() implies #[trigger] content_view(s)[i] == (
        s[i].0@, node_view(s[i].1)) by {
            if i < s.len() - 1 {
                assert(init[i] == s[i]);
            }
        }
    }
}

/// Looking a key up in the mathematical form finds the same position.
proof fn lemma_entry_pos(s: Seq<(String, ContentType)>, k: Seq<char>)
    ensures
        entry_pos(content_view(s), k) == key_index(s, k),
    decreases s.len(),
{
    if s.len() > 0 {
        lemma_content_view(s);
        lemma_content_view(s.drop_first());
        assert(content_view(s).drop_first() =~= content_view(s.drop_first()));
        lemma_entry_pos(s.drop_first(), k);
    }
}

/// Looking a scope up in the mathematical form finds the same position.
proof fn lemma_scope_pos(scopes: Seq<Scope>, k: Seq<char>)
    ensures
        scope_pos(scopes.map_values(|sc: Scope| scope_view(sc)), k) == scope_index(scopes, k),
    decreases scopes.len(),
{
    if scopes.len() > 0 {
        let m = scopes.map_values(|sc: Scope| scope_view(sc));
        assert(m.drop_first() =~= scopes.drop_first().map_values(|sc: Scope| scope_view(sc)));
        assert(m[0] == scope_view(scopes[0]));
        lemma_scope_pos(scopes.drop_first(), k);
    }
}

/// What `key_index` tells of the entries before and at it.
proof fn lemma_key_index(content: Seq<(String, ContentType)>, k: Seq<char>)
    ensures
        0 <= key_index(content, k) <= content.len(),
        forall|j: int| 0 <= j < key_index(content, k) ==> (#[trigger] content[j]).0@ != k,
        key_index(content, k) < content.len() ==> content[key_index(content, k)].0@ == k,
    decreases content.len(),
{
    if content.len() > 0 && content[0].0@ != k {
        lemma_key_index(content.drop_first(), k);
        assert forall|j: int| 0 <= j < key_index(content, k) implies (#[trigger] content[j]).0@ != k by {
            if j > 0 {
                assert(content[j] == content.drop_first()[j - 1]);
            }
        }
    }
}

/// `key_index` is the first position under key `k`.
proof fn lemma_key_index_is(content: Seq<(String, ContentType)>, k: Seq<char>, i: int)
    requires
        0 <= i <= content.len(),
        forall|j: int| 0 <= j < i ==> (#[trigger] content[j]).0@ != k,
        i < content.len() ==> content[i].0@ == k,
    ensures
        key_index(content, k) == i,
    decreases i,
{
    if i > 0 {
        assert forall|j: int| 0 <= j < i - 1 implies (#[trigger] content.drop_first()[j]).0@ != k by {
            assert(content.drop_first()[j] == content[j + 1]);
        }
        lemma_key_index_is(content.drop_first(), k, i - 1);
    }
}

/// What `scope_index` tells of the scopes before and at it.
proof fn lemma_scope_index(scopes: Seq<Scope>, k: Seq<char>)
    ensures
        0 <= scope_index(scopes, k) <= scopes.len(),
        forall|j: int| 0 <= j < scope_index(scopes, k) ==> (#[trigger] scopes[j]).name@ != k,
        scope_index(scopes, k) < scopes.len() ==> scopes[scope_index(scopes, k)].name@ == k,
    decreases scopes.len(),
{
    if scopes.len() > 0 && scopes[0].name@ != k {
        lemma_scope_index(scopes.drop_first(), k);
        assert forall|j: int| 0 <= j < scope_index(scopes, k) implies (#[trigger] scopes[j]).name@ != k by {
            if j > 0 {
                assert(scopes[j] == scopes.drop_first()[j - 1]);
            }
        }
    }
}

/// `scope_index` is the first position of a scope named `k`.
proof fn lemma_scope_index_is(scopes: Seq<Scope>, k: Seq<char>, i: int)
    requires
        0 <= i <= scopes.len(),
        forall|j: int| 0 <= j < i ==> (#[trigger] scopes[j]).name@ != k,
        i < scopes.len() ==> scopes[i].name@ == k,
    ensures
        scope_index(scopes, k) == i,
    decreases i,
{
    if i > 0 {
        assert forall|j: int| 0 <= j < i - 1 implies (#[trigger] scopes.drop_first()[j]).name@ != k by {
            assert(scopes.drop_first()[j] == scopes[j + 1]);
        }
        lemma_scope_index_is(scopes.drop_first(), k, i - 1);
    }
}

/// The position of the first entry under key `k`.
fn find_key(content: &Vec<(String, ContentType)>, k: &String) -> (r: usize)
    ensures
        r == key_index(content@, k@),
{
    let mut i: usize = 0;
    while i < content.len()
        invariant
            i <= content.len(),
            forall|j: int| 0 <= j < i ==> (#[trigger] content@[j]).0@ != k@,
        decreases content.len() - i,
    {
        if content[i].0 == *k {
            proof {
                lemma_key_index_is(content@, k@, i as int);
            }
            return i;
        }
        i = i + 1;
    }
    proof {
        lemma_key_index_is(content@, k@, i as int);
    }
    i
}

/// The position of the first scope named `k`.
fn find_scope(scopes: &Vec<Scope>, k: &String) -> (r: usize)
    ensures
        r == scope_index(scopes@, k@),
{
    let mut i: usize = 0;
    while i < scopes.len()
        invariant
            i <= scopes.len(),
            forall|j: int| 0 <= j < i ==> (#[trigger] scopes@[j]).name@ != k@,
        decreases scopes.len() - i,
    {
        if scopes[i].name == *k {
            proof {
                lemma_scope_index_is(scopes@, k@, i as int);
            }
            return i;
        }
        i = i + 1;
    }
    proof {
        lemma_scope_index_is(scopes@, k@, i as int);
    }
    i
}

/// Entries that agree everywhere but under key `k` lead to the same values along paths that
/// do not start with `k`.
proof fn lemma_lookup_other(
    content: Seq<(String, ContentType)>,
    content2: Seq<(String, ContentType)>,
    k: Seq<char>,
    q: Seq<Seq<char>>,
)
    requires
        content2.len() >= content.len(),
        forall|j: int| 0 <= j < content.len() ==> (#[trigger] content2[j]).0@ == content[j].0@,
        forall|j: int| 0 <= j < content.len() && content[j].0@ != k ==> #[trigger] content2[j] == content[j],
        forall|j: int| content.len() <= j < content2.len() ==> (#[trigger] content2[j]).0@ == k,
        q.len() > 0,
        q[0] != k,
    ensures
        lookup(content2, q) == lookup(content, q),
{
    let q0 = q[0];
    lemma_key_index(content, q0);
    let i = key_index(content, q0);
    if i < content.len() {
        assert(content2[i] == content[i]);
        assert forall|j: int| 0 <= j < i implies (#[trigger] content2[j]).0@ != q0 by {
            assert(content2[j].0@ == content[j].0@);
        }
        lemma_key_index_is(content2, q0, i);
    } else {
        assert forall|j: int| 0 <= j < content2.len() implies (#[trigger] content2[j]).0@ != q0 by {
            if j < content.len() {
                assert(content2[j].0@ == content[j].0@);
            }
        }
        lemma_key_index_is(content2, q0, content2.len() as int);
    }
}

/// An entry means the same one level down, for paths that start at its first name.
proof fn lemma_apply_shift(prev: Option<LeafView>, e: EntryView, q: Seq<Seq<char>>)
    requires
        q.len() > 0,
        e.path.len() > 0,
        q[0] == e.path[0],
    ensures
        apply_entry(prev, e, q) == apply_entry(
            prev,
            EntryView { path: e.path.drop_first(), leaf: e.leaf },
            q.drop_first(),
        ),
{
    let r = e.path;
    let q1 = q.drop_first();
    let r1 = r.drop_first();
    if q1 == r1 {
        assert(q =~= seq![q[0]] + q1);
        assert(r =~= seq![r[0]] + r1);
    }
    if q == r {
        assert(q1 =~= r1);
    }
    if is_prefix_of(q, r) {
        assert(r1.take(q1.len() as int) =~= r.take(q.len() as int).drop_first());
    }
    if is_prefix_of(q1, r1) {
        assert(r.take(q.len() as int) =~= seq![r[0]] + r1.take(q1.len() as int));
        assert(q =~= seq![q[0]] + q1);
    }
    if is_prefix_of(r, q) {
        assert(q1.take(r1.len() as int) =~= q.take(r.len() as int).drop_first());
    }
    if is_prefix_of(r1, q1) {
        assert(q.take(r.len() as int) =~= seq![q[0]] + q1.take(r1.len() as int));
        assert(r =~= seq![r[0]] + r1);
    }
}

/// An entry leaves the values along paths that part from its own at the first name.
proof fn lemma_apply_other(prev: Option<LeafView>, e: EntryView, q: Seq<Seq<char>>)
    requires
        q.len() > 0,
        e.path.len() > 0,
        q[0] != e.path[0],
    ensures
        apply_entry(prev, e, q) == prev,
{
    if is_prefix_of(q, e.path) {
        assert(e.path.take(q.len() as int)[0] == e.path[0]);
    }
    if is_prefix_of(e.path, q) {
        assert(q.take(e.path.len() as int)[0] == q[0]);
    }
}

/// The entries of a scope nested under the value `old`: those of `old` when it is a scope,
/// none otherwise.
spec fn sub_content(old: Option<ContentType>) -> Seq<(String, ContentType)> {
    match old {
        Some(ContentType::Scope(sc)) => sc.content@,
        _ => Seq::empty(),
    }
}

/// Applies an entry to the entries of a scope, the entry's path being taken from position `d`
/// on: the value under the path is set (or the list grows), scopes are made along the way, and
/// whatever stood in their place is replaced.
fn insert_in(content: Vec<(String, ContentType)>, path: &Vec<String>, d: usize, leaf: &Leaf) -> (r:
    Vec<(String, ContentType)>)
    requires
        d < path.len(),
    ensures
        forall|q: Seq<Seq<char>>|
            #[trigger] lookup(r@, q) == apply_entry(
                lookup(content@, q),
                EntryView { path: path.deep_view().skip(d as int), leaf: leaf_spec(*leaf) },
                q,
            ),
        content_view(r@) == tree_insert(
            content_view(content@),
            path.deep_view().skip(d as int),
            leaf_spec(*leaf),
        ),
    decreases path.len() - d,
{
    let ghost c0 = content@;
    let ghost rel = path.deep_view().skip(d as int);
    let ghost e = EntryView { path: rel, leaf: leaf_spec(*leaf) };
    let ghost e1 = EntryView { path: rel.drop_first(), leaf: leaf_spec(*leaf) };
    let k = &path[d];
    assert(rel[0] == k@);
    let j = find_key(&content, k);
    proof {
        lemma_key_index(c0, k@);
    }
    let len0 = content.len();
    let mut content = content;
    let ghost old_v: Option<ContentType> = if j < len0 {
        Some(c0[j as int].1)
    } else {
        None
    };
    let mut key = k.clone();
    let mut old: Option<ContentType> = None;
    if j < len0 {
        let (kk, n) = content.remove(j);
        key = kk;
        old = Some(n);
    }
    assert(old == old_v);
    assert(key@ == k@);
    let ghost old_nv: Option<NodeView> = if j < len0 {
        Some(node_view(c0[j as int].1))
    } else {
        None
    };
    let ghost mut nsub: Seq<(String, ContentType)> = Seq::empty();
    let node: ContentType = if d + 1 == path.len() {
        assert(rel =~= seq![k@]);
        match leaf {
            Leaf::Value(v) => convert_value(v.as_str()),
            Leaf::Item(s) => match old {
                Some(ContentType::List(l)) => {
                    let mut l = l;
                    let ghost before = l.deep_view();
                    l.push(s.clone());
                    assert(l.deep_view() =~= before.push(s@));
                    ContentType::List(l)
                },
                _ => {
                    let mut l: Vec<String> = Vec::new();
                    l.push(s.clone());
                    assert(l.deep_view() =~= seq![s@]);
                    ContentType::List(l)
                },
            },
        }
    } else {
        let sub: Vec<(String, ContentType)> = match old {
            Some(ContentType::Scope(sc)) => sc.content,
            _ => Vec::new(),
        };
        assert(sub@ =~= sub_content(old_v));
        assert(path.deep_view().skip(d + 1) =~= rel.drop_first());
        assert(content_view(sub@) == entries_below(old_nv)) by {
            if !(old_v matches Some(ContentType::Scope(_))) {
                assert(sub@ =~= Seq::<(String, ContentType)>::empty());
            }
        }
        let new_sub = insert_in(sub, path, d + 1, leaf);
        proof {
            nsub = new_sub@;
        }
        ContentType::Scope(Scope { name: k.clone(), content: new_sub })
    };
    assert(node_view(node) == (if d + 1 == path.len() {
        leaf_node(leaf_spec(*leaf), old_nv)
    } else {
        NodeView::Branch(
            ScopeView {
                name: k@,
                content: tree_insert(entries_below(old_nv), rel.drop_first(), leaf_spec(*leaf)),
            },
        )
    }));
    if j < len0 {
        content.insert(j, (key, node));
        assert(content@ =~= c0.update(j as int, (key, node)));
    } else {
        content.push((key, node));
        assert(content@ =~= c0.push((key, node)));
    }
    let ghost r = content@;
    assert forall|jj: int| 0 <= jj < j implies (#[trigger] r[jj]).0@ != k@ by {
        assert(r[jj] == c0[jj]);
    }
    assert(r[j as int] == (key, node));
    proof {
        lemma_key_index_is(r, k@, j as int);
        lemma_content_view(c0);
        lemma_content_view(r);
        lemma_entry_pos(c0, k@);
        let cv0 = content_view(c0);
        if j < len0 {
            assert(content_view(r) =~= cv0.update(j as int, (k@, node_view(node))));
        } else {
            assert(content_view(r) =~= cv0.push((k@, node_view(node))));
        }
    }
    assert forall|q: Seq<Seq<char>>| #[trigger]
        lookup(r, q) == apply_entry(lookup(c0, q), e, q) by {
        if q.len() == 0 {
            assert(is_prefix_of(q, e.path)) by {
                assert(e.path.take(0) =~= q);
            }
        } else if q[0] != k@ {
            lemma_lookup_other(c0, r, k@, q);
            lemma_apply_other(lookup(c0, q), e, q);
        } else if d + 1 == path.len() {
            if q.len() == 1 {
                assert(q =~= rel);
            } else {
                assert(is_prefix_of(e.path, q)) by {
                    assert(q.take(1) =~= rel);
                }
            }
        } else {
            if q.len() == 1 {
                assert(is_prefix_of(q, e.path)) by {
                    assert(rel.take(1) =~= q);
                }
            } else {
                lemma_apply_shift(lookup(c0, q), e, q);
                assert(lookup(nsub, q.drop_first()) == apply_entry(
                    lookup(sub_content(old_v), q.drop_first()),
                    e1,
                    q.drop_first(),
                ));
                assert(lookup(c0, q) == lookup(sub_content(old_v), q.drop_first()));
            }
        }
    }
    content
}

/// Applies an entry to a whole configuration: the top-level scope named by the first name of
/// its path is made when missing, and the rest of the path is applied inside it.
fn insert_entry(config: &mut AptConfig, e: &Entry)
    requires
        e@.path.len() >= 2,
    ensures
        forall|q: Seq<Seq<char>>|
            #[trigger] config_lookup(*final(config), q) == apply_entry(
                config_lookup(*old(config), q),
                e@,
                q,
            ),
        config_view(*final(config)) == config_insert(config_view(*old(config)), e@),
{
    let ghost s0 = config.scopes@;
    let ghost c0 = *config;
    let ghost ev = e@;
    let ghost e1 = EntryView { path: ev.path.drop_first(), leaf: ev.leaf };
    let name = &e.path[0];
    assert(ev.path[0] == name@);
    let i = find_scope(&config.scopes, name);
    proof {
        lemma_scope_index(s0, name@);
    }
    let len0 = config.scopes.len();
    assert(e.path.deep_view().skip(1) =~= e1.path);
    let ghost old_content: Seq<(String, ContentType)> = if i < len0 {
        s0[i as int].content@
    } else {
        Seq::empty()
    };
    let ghost mut new_content: Seq<(String, ContentType)> = Seq::empty();
    proof {
        lemma_scope_pos(s0, name@);
    }
    let ghost v0 = config_view(c0);
    if i < len0 {
        let sc = config.scopes.remove(i);
        let content = insert_in(sc.content, &e.path, 1, &e.leaf);
        proof {
            new_content = content@;
        }
        config.scopes.insert(i, Scope { name: sc.name, content });
        assert(config.scopes@ =~= s0.update(i as int, config.scopes@[i as int]));
        assert(config_view(*config) =~= config_insert(v0, ev));
    } else {
        let empty: Vec<(String, ContentType)> = Vec::new();
        assert(content_view(empty@) =~= Seq::<(Seq<char>, NodeView)>::empty());
        let content = insert_in(empty, &e.path, 1, &e.leaf);
        proof {
            new_content = content@;
        }
        config.scopes.push(Scope { name: name.clone(), content });
        assert(config.scopes@ =~= s0.push(config.scopes@[i as int]));
        assert(config_view(*config) =~= config_insert(v0, ev));
    }
    let ghost s1 = config.scopes@;
    assert(s1[i as int].name@ == name@);
    assert(s1[i as int].content@ == new_content);
    assert forall|jj: int| 0 <= jj < i implies (#[trigger] s1[jj]).name@ != name@ by {
        assert(s1[jj] == s0[jj]);
    }
    proof {
        lemma_scope_index_is(s1, name@, i as int);
    }
    assert forall|q: Seq<Seq<char>>| #[trigger]
        config_lookup(*config, q) == apply_entry(config_lookup(c0, q), ev, q) by {
        if q.len() < 2 {
            if q.len() == 1 && q[0] != name@ {
                lemma_apply_other(config_lookup(c0, q), ev, q);
            } else if q.len() == 1 {
                assert(is_prefix_of(q, ev.path)) by {
                    assert(ev.path.take(1) =~= q);
                }
            } else {
                assert(is_prefix_of(q, ev.path)) by {
                    assert(ev.path.take(0) =~= q);
                }
            }
        } else if q[0] != name@ {
            lemma_apply_other(config_lookup(c0, q), ev, q);
            lemma_scope_index(s0, q[0]);
            let k = scope_index(s0, q[0]);
            if k < s0.len() {
                assert(k != i);
                assert(s1[k] == s0[k]);
                assert forall|jj: int| 0 <= jj < k implies (#[trigger] s1[jj]).name@ != q[0] by {
                    if jj != i {
                        assert(s1[jj] == s0[jj]);
                    }
                }
                lemma_scope_index_is(s1, q[0], k);
            } else {
                assert forall|jj: int| 0 <= jj < s1.len() implies (#[trigger] s1[jj]).name@
                    != q[0] by {
                    if jj < s0.len() && jj != i {
                        assert(s1[jj] == s0[jj]);
                    }
                }
                lemma_scope_index_is(s1, q[0], s1.len() as int);
            }
        } else {
            lemma_apply_shift(config_lookup(c0, q), ev, q);
            assert(lookup(new_content, q.drop_first()) == apply_entry(
                lookup(old_content, q.drop_first()),
                e1,
                q.drop_first(),
            ));
            assert(config_lookup(c0, q) == lookup(old_content, q.drop_first()));
        }
    }
}

/// Every entry a state holds has a path of at least two names.
pub open spec fn entries_placed(es: Seq<EntryView>) -> bool {
    forall|i: int| 0 <= i < es.len() ==> (#[trigger] es[i]).path.len() >= 2
}

/// The statement reader only records entries that sit inside a scope.
proof fn lemma_scan_placed(toks: Seq<TokenView>)
    ensures
        parse_scan(toks) matches Ok(st) ==> entries_placed(st.entries),
    decreases toks.len(),
{
    if toks.len() > 0 {
        lemma_scan_placed(toks.drop_last());
        match parse_scan(toks.drop_last()) {
            Ok(st) => {
                match parse_step(st, toks.last()) {
                    Ok(st2) => {
                        assert forall|i: int| 0 <= i < st2.entries.len() implies (
                        #[trigger] st2.entries[i]).path.len() >= 2 by {
                            if i < st.entries.len() {
                                assert(st2.entries[i] == st.entries[i]);
                            }
                        }
                    },
                    Err(_) => {},
                }
            },
            Err(_) => {},
        }
    }
}

/// The configuration that a sequence of entries builds.
fn build_config(entries: &Vec<Entry>) -> (c: AptConfig)
    requires
        entries_placed(entries_view(entries@)),
    ensures
        forall|q: Seq<Seq<char>>| #[trigger]
            config_lookup(c, q) == leaf_after(entries_view(entries@), q),
        config_view(c) == tree_of(entries_view(entries@)),
{
    let ghost ev = entries_view(entries@);
    let mut config = AptConfig { scopes: Vec::new() };
    let mut i: usize = 0;
    assert(config_view(config) =~= tree_of(ev.take(0)));
    assert forall|q: Seq<Seq<char>>| #[trigger] config_lookup(config, q) == leaf_after(
        ev.take(0),
        q,
    ) by {
        assert(ev.take(0).len() == 0);
    }
    while i < entries.len()
        invariant
            i <= entries.len(),
            ev == entries_view(entries@),
            entries_placed(ev),
            forall|q: Seq<Seq<char>>| #[trigger]
                config_lookup(config, q) == leaf_after(ev.take(i as int), q),
            config_view(config) == tree_of(ev.take(i as int)),
        decreases entries.len() - i,
    {
        assert(ev[i as int] == entries@[i as int]@);
        assert(ev[i as int].path.len() >= 2);
        let ghost before = config;
        insert_entry(&mut config, &entries[i]);
        assert(ev.take(i + 1).drop_last() =~= ev.take(i as int));
        assert(ev.take(i + 1).last() == ev[i as int]);
        assert forall|q: Seq<Seq<char>>| #[trigger] config_lookup(config, q) == leaf_after(
            ev.take(i + 1),
            q,
        ) by {
            assert(config_lookup(before, q) == leaf_after(ev.take(i as int), q));
        }
        i = i + 1;
    }
    assert(ev.take(entries.len() as int) =~= ev);
    config
}

/// Reads an APT configuration text into its tree of scopes.
///
/// The text is a sequence of statements: `path "value";` sets a value, `path { ... };` opens
/// a scope for the statements inside, and `"item";` inside a scope adds an item to the list
/// named by the scope's path. A path is names joined by `::`. `//` and `#` start comments.
/// The result is the tree that the entries build, applied in order (see [`tree_of`]), and the
/// value at each path is the one that the entries leave there (see [`leaf_after`]); the text
/// is refused exactly as [`spec_entries`] says. In the result no key occurs twice in a scope,
/// no two top-level scopes share a name, and every scope below is named by its key and holds
/// at least one entry.
pub fn parse_apt_config(content: String) -> (r: Result<AptConfig, AptParseError>)
    ensures
        match spec_entries(content@) {
            Err(e) => r == Err::<AptConfig, AptParseError>(e),
            Ok(es) => r matches Ok(c) && config_view(c) == tree_of(es) && config_well_formed(
                config_view(c),
            ) && forall|q: Seq<Seq<char>>| #[trigger] config_lookup(c, q) == leaf_after(es, q),
        },
{
    let toks = match tokenize(content.as_str()) {
        Ok(t) => t,
        Err(e) => return Err(e),
    };
    let entries = match read_statements(&toks) {
        Ok(es) => es,
        Err(e) => return Err(e),
    };
    proof {
        lemma_scan_placed(tokens_view(toks@));
        lemma_tree_of_wf(entries_view(entries@));
    }
    Ok(build_config(&entries))
}

impl AptConfig {
    /// The first top-level scope named `name`, if any.
    pub fn get(&self, name: &str) -> (r: Option<&Scope>)
        ensures
            r == (if scope_index(self.scopes@, name@) < self.scopes@.len() {
                Some(&self.scopes@[scope_index(self.scopes@, name@)])
            } else {
                None::<&Scope>
            }),
    {
        let key = String::from_str(name);
        let i = find_scope(&self.scopes, &key);
        if i < self.scopes.len() {
            Some(&self.scopes[i])
        } else {
            None
        }
    }
}

// ----------------------------------------------------------------------------------------
// The proxy settings
// ----------------------------------------------------------------------------------------

/// The settings that give APT its proxy, one per protocol, in the order in which they are
/// set.
pub open spec fn proxy_settings() -> Seq<Seq<char>> {
    seq!["Acquire::http::Proxy"@, "Acquire::https::Proxy"@, "Acquire::ftp::Proxy"@]
}

/// The statement `<setting> "<url>";`.
pub open spec fn proxy_statement(setting: Seq<char>, url: Seq<char>) -> Seq<char> {
    setting + " \""@ + url + "\";"@
}

/// Sets the settings `names`, in order, to `url`: each statement takes the place of the first
/// line that holds its setting, or goes at the end.
pub open spec fn with_settings(lines: Seq<Seq<char>>, names: Seq<Seq<char>>, url: Seq<char>) -> Seq<
    Seq<char>,
>
    decreases names.len(),
{
    if names.len() == 0 {
        lines
    } else {
        set_line(
            with_settings(lines, names.drop_last(), url),
            names.last(),
            proxy_statement(names.last(), url),
        )
    }
}

/// The lines of the APT configuration after `Add` with proxy `url`.
pub open spec fn apt_added(lines: Seq<Seq<char>>, url: Seq<char>) -> Seq<Seq<char>> {
    with_settings(lines, proxy_settings(), url)
}

/// A line holds one of the proxy settings.
pub open spec fn holds_proxy_setting(line: Seq<char>) -> bool {
    ||| contains(line, proxy_settings()[0])
    ||| contains(line, proxy_settings()[1])
    ||| contains(line, proxy_settings()[2])
}

/// The lines of the APT configuration after `Remove`: those that hold no proxy setting, in
/// their order.
pub open spec fn apt_removed(lines: Seq<Seq<char>>) -> Seq<Seq<char>>
    decreases lines.len(),
{
    if lines.len() == 0 {
        lines
    } else if holds_proxy_setting(lines.last()) {
        apt_removed(lines.drop_last())
    } else {
        apt_removed(lines.drop_last()).push(lines.last())
    }
}

/// The statement `<setting> "<url>";`.
fn statement_line(setting: &str, url: &str) -> (r: String)
    ensures
        r@ == proxy_statement(setting@, url@),
{
    let mut r = String::from_str(setting);
    r.append(" \"");
    r.append(url);
    r.append("\";");
    r
}

/// The lines of the APT configuration after `Add` with proxy `url`: the statement of each
/// proxy setting replaces the first line that holds the setting, or is added at the end.
pub fn add_proxy_lines(content_as_vec: Vec<String>, url: &str) -> (r: Vec<String>)
    ensures
        r.deep_view() == apt_added(content_as_vec.deep_view(), url@),
{
    let ghost orig = content_as_vec.deep_view();
    let settings = ["Acquire::http::Proxy", "Acquire::https::Proxy", "Acquire::ftp::Proxy"];
    let mut lines = content_as_vec;
    let mut t: usize = 0;
    assert(proxy_settings().take(0) =~= Seq::<Seq<char>>::empty());
    while t < 3
        invariant
            t <= 3,
            settings@.len() == 3,
            settings@[0]@ == proxy_settings()[0],
            settings@[1]@ == proxy_settings()[1],
            settings@[2]@ == proxy_settings()[2],
            lines.deep_view() == with_settings(orig, proxy_settings().take(t as int), url@),
        decreases 3 - t,
    {
        let setting = settings[t];
        let line = statement_line(setting, url);
        replace_or_push(&mut lines, setting, line);
        assert(proxy_settings().take(t + 1).drop_last() =~= proxy_settings().take(t as int));
        assert(proxy_settings().take(t + 1).last() == setting@);
        t = t + 1;
    }
    assert(proxy_settings().take(3) =~= proxy_settings());
    lines
}

/// Whether a line holds one of the proxy settings.
fn line_holds_proxy_setting(line: &str) -> (r: bool)
    ensures
        r == holds_proxy_setting(line@),
{
    str_contains(line, "Acquire::http::Proxy") || str_contains(line, "Acquire::https::Proxy")
        || str_contains(line, "Acquire::ftp::Proxy")
}

/// The lines of the APT configuration after `Remove`: those that hold no proxy setting.
pub fn remove_proxy_lines(content_as_vec: &Vec<String>) -> (r: Vec<String>)
    ensures
        r.deep_view() == apt_removed(content_as_vec.deep_view()),
{
    let ghost dv = content_as_vec.deep_view();
    let mut out: Vec<String> = Vec::new();
    let mut i: usize = 0;
    while i < content_as_vec.len()
        invariant
            i <= content_as_vec.len(),
            dv == content_as_vec.deep_view(),
            out.deep_view() == apt_removed(dv.take(i as int)),
        decreases content_as_vec.len() - i,
    {
        assert(dv.take(i + 1).drop_last() =~= dv.take(i as int));
        if !line_holds_proxy_setting(content_as_vec[i].as_str()) {
            let ghost before = out.deep_view();
            out.push(content_as_vec[i].clone());
            assert(out.deep_view() =~= before.push(dv[i as int]));
        }
        i = i + 1;
    }
    assert(dv.take(dv.len() as int) =~= dv);
    out
}

/// What managing the APT proxy amounts to.
pub enum AptAction {
    /// Nothing is written; the configuration read is reported.
    Report(AptConfig),
    /// The configuration file is written with this content.
    Write(String),
}

/// What a command does to the APT configuration, given its text: `Add` and `Remove` give the
/// text to write (the lines, edited, joined by line breaks), `Show` the configuration read,
/// or the error by which the text is refused.
pub fn manage_proxy(subcommand: &Commands, content: &str) -> (r: Result<AptAction, AptParseError>)
    ensures
        match subcommand {
            Commands::Add { proxy_url } => r matches Ok(AptAction::Write(t)) && t@ == join_lines(
                apt_added(lines_of(content@), proxy_url@),
            ),
            Commands::Remove => r matches Ok(AptAction::Write(t)) && t@ == join_lines(
                apt_removed(lines_of(content@)),
            ),
            Commands::Show => match spec_entries(content@) {
                Err(e) => r == Err::<AptAction, AptParseError>(e),
                Ok(es) => r matches Ok(AptAction::Report(c)) && config_view(c) == tree_of(es)
                    && forall|q: Seq<Seq<char>>| #[trigger] config_lookup(c, q) == leaf_after(es, q),
            },
        },
{
    match subcommand {
        Commands::Add { proxy_url } => {
            let lines = add_proxy_lines(split_lines(content), proxy_url.as_str());
            Ok(AptAction::Write(join_lines_exec(&lines)))
        },
        Commands::Remove => {
            let lines = remove_proxy_lines(&split_lines(content));
            Ok(AptAction::Write(join_lines_exec(&lines)))
        },
        Commands::Show => match parse_apt_config(String::from_str(content)) {
            Ok(c) => Ok(AptAction::Report(c)),
            Err(e) => Err(e),
        },
    }
}

/// A statement holds its own setting.
proof fn lemma_statement_holds_setting(setting: Seq<char>, url: Seq<char>)
    ensures
        contains(proxy_statement(setting, url), setting),
{
    assert(proxy_statement(setting, url).subrange(0, setting.len() as int) =~= setting);
    assert(super::text::occurs_at(proxy_statement(setting, url), setting, 0));
}

/// Replacing a line that holds a proxy setting by another that does leaves the same lines
/// after `Remove`.
proof fn lemma_apt_removed_update(ls: Seq<Seq<char>>, i: int, x: Seq<char>)
    requires
        0 <= i < ls.len(),
        holds_proxy_setting(ls[i]),
        holds_proxy_setting(x),
    ensures
        apt_removed(ls.update(i, x)) == apt_removed(ls),
    decreases ls.len(),
{
    let u = ls.update(i, x);
    if i == ls.len() - 1 {
        assert(u.drop_last() =~= ls.drop_last());
        assert(u.last() == x);
    } else {
        assert(u.drop_last() =~= ls.drop_last().update(i, x));
        assert(u.last() == ls.last());
        lemma_apt_removed_update(ls.drop_last(), i, x);
    }
}

/// Setting the first `m` proxy settings leaves the same lines after `Remove`.
proof fn lemma_apt_added_removed(lines: Seq<Seq<char>>, url: Seq<char>, m: int)
    requires
        0 <= m <= 3,
    ensures
        apt_removed(with_settings(lines, proxy_settings().take(m), url)) == apt_removed(lines),
    decreases m,
{
    let n = proxy_settings();
    if m == 0 {
        assert(n.take(0) =~= Seq::<Seq<char>>::empty());
    } else {
        assert(n.take(m).drop_last() =~= n.take(m - 1));
        assert(n.take(m).last() == n[m - 1]);
        lemma_apt_added_removed(lines, url, m - 1);
        let before = with_settings(lines, n.take(m - 1), url);
        let name = n[m - 1];
        let line = proxy_statement(name, url);
        lemma_statement_holds_setting(name, url);
        assert(holds_proxy_setting(line));
        lemma_set_line_result(before, name, line);
        let out = set_line(before, name, line);
        if out.len() == before.len() {
            let j = choose|j: int| 0 <= j < before.len() && contains(before[j], name) && out
                == before.update(j, line);
            assert(holds_proxy_setting(before[j]));
            lemma_apt_removed_update(before, j, line);
        } else {
            assert(out.drop_last() =~= before);
        }
    }
}

/// `set_line` either puts the line in place of one that holds the name, or adds it at the
/// end.
proof fn lemma_set_line_result(lines: Seq<Seq<char>>, name: Seq<char>, line: Seq<char>)
    ensures
        (set_line(lines, name, line).len() == lines.len() && exists|j: int|
            0 <= j < lines.len() && contains(#[trigger] lines[j], name) && set_line(
                lines,
                name,
                line,
            ) == lines.update(j, line)) || set_line(lines, name, line) == lines.push(line),
{
    super::environment::lemma_first_with_facts(lines, name);
}

/// The proxy settings hold neither a space nor a double quote, and none holds another.
proof fn lemma_settings_plain(k: int, m: int)
    requires
        0 <= k < 3,
        0 <= m < 3,
    ensures
        super::environment::has_no(proxy_settings()[k], ' '),
        super::environment::has_no(proxy_settings()[k], '"'),
        proxy_settings()[k].len() > 1,
        k != m ==> !contains(proxy_settings()[m], proxy_settings()[k]),
{
    reveal_strlit("Acquire::http::Proxy");
    reveal_strlit("Acquire::https::Proxy");
    reveal_strlit("Acquire::ftp::Proxy");
    let n = proxy_settings();
    assert(n[0] =~= seq!['A', 'c', 'q', 'u', 'i', 'r', 'e', ':', ':', 'h', 't', 't', 'p', ':', ':', 'P', 'r', 'o', 'x', 'y']);
    assert(n[1] =~= seq!['A', 'c', 'q', 'u', 'i', 'r', 'e', ':', ':', 'h', 't', 't', 'p', 's', ':', ':', 'P', 'r', 'o', 'x', 'y']);
    assert(n[2] =~= seq!['A', 'c', 'q', 'u', 'i', 'r', 'e', ':', ':', 'f', 't', 'p', ':', ':', 'P', 'r', 'o', 'x', 'y']);
    if k != m && contains(n[m], n[k]) {
        let i = choose|i: int| super::text::occurs_at(n[m], n[k], i);
        assert(n[m].subrange(i, i + n[k].len()) == n[k]);
        if k == 0 && m == 1 {
            assert(i == 0);
            assert(n[m][13] == n[k][13]);
        } else if k == 2 && m == 0 {
            assert(i <= 1);
            assert(n[m][i + 9] == n[k][9]);
        } else if k == 2 && m == 1 {
            assert(i <= 2);
            assert(n[m][i + 9] == n[k][9]);
        }
    }
}

/// A statement of one proxy setting holds no other setting, for a URL that holds none.
proof fn lemma_statement_excludes(k: int, m: int, url: Seq<char>)
    requires
        0 <= k < 3,
        0 <= m < 3,
        k != m,
        !contains(url, proxy_settings()[k]),
    ensures
        !contains(proxy_statement(proxy_settings()[m], url), proxy_settings()[k]),
{
    let s = proxy_settings()[m];
    let p = proxy_settings()[k];
    lemma_settings_plain(k, m);
    reveal_strlit(" \"");
    reveal_strlit("\";");
    assert(" \""@ =~= seq![' ', '"']);
    assert("\";"@ =~= seq!['"', ';']);
    let rest = url + seq!['"', ';'];
    let tail = seq!['"'] + rest;
    assert(proxy_statement(s, url) =~= s + seq![' '] + tail);
    assert(tail =~= Seq::<char>::empty() + seq!['"'] + rest);
    assert(rest =~= url + seq!['"'] + seq![';']);
    if contains(proxy_statement(s, url), p) {
        super::environment::lemma_no_straddle(s, ' ', tail, p);
        super::environment::lemma_no_straddle(Seq::<char>::empty(), '"', rest, p);
        super::environment::lemma_no_straddle(url, '"', seq![';'], p);
    }
}

/// The first line that holds setting `k` is its statement.
pub open spec fn holds_statement(lines: Seq<Seq<char>>, k: int, url: Seq<char>) -> bool {
    let i = super::environment::first_with(lines, proxy_settings()[k]);
    i < lines.len() && lines[i] == proxy_statement(proxy_settings()[k], url)
}

/// After setting the first `m` settings, the first line holding any of them is its
/// statement.
proof fn lemma_apt_prefix_holds(lines: Seq<Seq<char>>, url: Seq<char>, m: int, k: int)
    requires
        forall|j: int| 0 <= j < 3 ==> !contains(url, #[trigger] proxy_settings()[j]),
        0 <= k < m <= 3,
    ensures
        holds_statement(with_settings(lines, proxy_settings().take(m), url), k, url),
    decreases m,
{
    let n = proxy_settings();
    assert(n.take(m).drop_last() =~= n.take(m - 1));
    assert(n.take(m).last() == n[m - 1]);
    let before = with_settings(lines, n.take(m - 1), url);
    let name = n[m - 1];
    let line = proxy_statement(name, url);
    let out = set_line(before, name, line);
    super::environment::lemma_first_with_facts(before, name);
    lemma_statement_holds_setting(name, url);
    let j = super::environment::first_with(before, name);
    if k == m - 1 {
        assert forall|q: int| 0 <= q < j implies !contains(#[trigger] out[q], name) by {
            assert(out[q] == before[q]);
        }
        super::environment::lemma_first_with(out, name, j);
    } else {
        lemma_apt_prefix_holds(lines, url, m - 1, k);
        let p = n[k];
        let i = super::environment::first_with(before, p);
        super::environment::lemma_first_with_facts(before, p);
        lemma_statement_excludes(k, m - 1, url);
        lemma_statement_excludes(m - 1, k, url);
        assert(j != i);
        assert forall|q: int| 0 <= q < i implies !contains(#[trigger] out[q], p) by {
            if q == j {
                assert(out[q] == line);
            } else {
                assert(out[q] == before[q]);
            }
        }
        assert(out[i] == before[i]);
        super::environment::lemma_first_with(out, p, i);
    }
}

/// After `Add` with a URL that holds no proxy setting, each setting is set to the URL: the
/// first line that holds it is its statement `<setting> "<url>";`.
pub proof fn law_apt_add_sets_each_setting(lines: Seq<Seq<char>>, url: Seq<char>, k: int)
    requires
        0 <= k < 3,
        forall|j: int| 0 <= j < 3 ==> !contains(url, #[trigger] proxy_settings()[j]),
    ensures
        holds_statement(apt_added(lines, url), k, url),
{
    lemma_apt_prefix_holds(lines, url, 3, k);
    assert(proxy_settings().take(3) =~= proxy_settings());
}

/// `Add` leaves every line that holds no proxy setting where it was.
pub proof fn law_apt_add_keeps_other_lines(lines: Seq<Seq<char>>, url: Seq<char>, i: int)
    requires
        0 <= i < lines.len(),
        !holds_proxy_setting(lines[i]),
    ensures
        i < apt_added(lines, url).len(),
        apt_added(lines, url)[i] == lines[i],
{
    lemma_apt_keeps_line(lines, url, i, 3);
    assert(proxy_settings().take(3) =~= proxy_settings());
}

proof fn lemma_apt_keeps_line(lines: Seq<Seq<char>>, url: Seq<char>, i: int, m: int)
    requires
        0 <= i < lines.len(),
        0 <= m <= 3,
        !holds_proxy_setting(lines[i]),
    ensures
        i < with_settings(lines, proxy_settings().take(m), url).len(),
        with_settings(lines, proxy_settings().take(m), url)[i] == lines[i],
    decreases m,
{
    let n = proxy_settings();
    if m == 0 {
        assert(n.take(0) =~= Seq::<Seq<char>>::empty());
    } else {
        assert(n.take(m).drop_last() =~= n.take(m - 1));
        assert(n.take(m).last() == n[m - 1]);
        lemma_apt_keeps_line(lines, url, i, m - 1);
        let before = with_settings(lines, n.take(m - 1), url);
        assert(!contains(before[i], n[m - 1]));
        super::environment::lemma_first_with_facts(before, n[m - 1]);
    }
}

/// `Remove` undoes `Add` on the APT configuration: removing the proxy after setting it gives
/// the lines that removing it from the start gives.
pub proof fn law_apt_remove_undoes_add(lines: Seq<Seq<char>>, url: Seq<char>)
    ensures
        apt_removed(apt_added(lines, url)) == apt_removed(lines),
{
    lemma_apt_added_removed(lines, url, 3);
    assert(proxy_settings().take(3) =~= proxy_settings());
}

/// After `Remove`, no line of the APT configuration holds a proxy setting, and every line
/// kept was there before.
pub proof fn law_apt_removed_has_no_setting(lines: Seq<Seq<char>>)
    ensures
        forall|i: int| 0 <= i < apt_removed(lines).len() ==> !holds_proxy_setting(
            #[trigger] apt_removed(lines)[i],
        ),
        forall|i: int| 0 <= i < apt_removed(lines).len() ==> lines.contains(
            #[trigger] apt_removed(lines)[i],
        ),
    decreases lines.len(),
{
    if lines.len() > 0 {
        law_apt_removed_has_no_setting(lines.drop_last());
        let r = apt_removed(lines);
        let p = apt_removed(lines.drop_last());
        assert forall|i: int| 0 <= i < r.len() implies !holds_proxy_setting(#[trigger] r[i])
            && lines.contains(r[i]) by {
            if i < p.len() {
                assert(r[i] == p[i]);
                let k = choose|k: int|
                    0 <= k < lines.drop_last().len() && lines.drop_last()[k] == p[i];
                assert(lines[k] == p[i]);
            } else {
                assert(r[i] == lines.last());
                assert(lines[lines.len() - 1] == lines.last());
            }
        }
    }
}

// ----------------------------------------------------------------------------------------
// Laws
// ----------------------------------------------------------------------------------------

/// The statement reader's state after the tokens `toks`, started from `st`.
pub open spec fn scan_from(st: ParseState, toks: Seq<TokenView>) -> Result<ParseState, AptParseError>
    decreases toks.len(),
{
    if toks.len() == 0 {
        Ok(st)
    } else {
        match scan_from(st, toks.drop_last()) {
            Err(e) => Err(e),
            Ok(s) => parse_step(s, toks.last()),
        }
    }
}

/// The tokens of a path: its names joined by `::`.
pub open spec fn path_tokens(p: Seq<Seq<char>>) -> Seq<TokenView>
    decreases p.len(),
{
    if p.len() <= 1 {
        if p.len() == 1 {
            seq![TokenView::Word(p[0])]
        } else {
            Seq::empty()
        }
    } else {
        path_tokens(p.drop_last()) + seq![TokenView::Colon, TokenView::Colon, TokenView::Word(
            p.last(),
        )]
    }
}

/// The tokens of the assignments `path "value";`, one after the other.
pub open spec fn assignment_tokens(stmts: Seq<(Seq<Seq<char>>, Seq<char>)>) -> Seq<TokenView>
    decreases stmts.len(),
{
    if stmts.len() == 0 {
        Seq::empty()
    } else {
        assignment_tokens(stmts.drop_last()) + path_tokens(stmts.last().0) + seq![
            TokenView::Text(stmts.last().1),
            TokenView::Semicolon,
        ]
    }
}

/// The assignments with `p` put in front of each path.
pub open spec fn under_path(p: Seq<Seq<char>>, stmts: Seq<(Seq<Seq<char>>, Seq<char>)>) -> Seq<
    (Seq<Seq<char>>, Seq<char>),
> {
    stmts.map_values(|st: (Seq<Seq<char>>, Seq<char>)| (p + st.0, st.1))
}

/// The entries that assignments set, each path put behind `prefix`.
pub open spec fn assignment_entries(
    prefix: Seq<Seq<char>>,
    stmts: Seq<(Seq<Seq<char>>, Seq<char>)>,
) -> Seq<EntryView> {
    stmts.map_values(
        |st: (Seq<Seq<char>>, Seq<char>)| EntryView { path: prefix + st.0, leaf: EntryLeaf::Value(st.1) },
    )
}

/// Reading `a` then `b` is reading `a + b`.
proof fn lemma_scan_concat(st: ParseState, a: Seq<TokenView>, b: Seq<TokenView>)
    ensures
        scan_from(st, a + b) == (match scan_from(st, a) {
            Ok(s) => scan_from(s, b),
            Err(e) => Err(e),
        }),
    decreases b.len(),
{
    if b.len() == 0 {
        assert(a + b =~= a);
    } else {
        assert((a + b).drop_last() =~= a + b.drop_last());
        assert((a + b).last() == b.last());
        lemma_scan_concat(st, a, b.drop_last());
    }
}

/// Reading one token from a state.
proof fn lemma_scan_one(st: ParseState, t: TokenView)
    ensures
        scan_from(st, seq![t]) == parse_step(st, t),
{
    assert(seq![t].drop_last() =~= Seq::<TokenView>::empty());
    assert(scan_from(st, Seq::<TokenView>::empty()) == Ok::<ParseState, AptParseError>(st));
}

/// Reading two tokens from a state.
proof fn lemma_scan_two(st: ParseState, t1: TokenView, t2: TokenView)
    ensures
        scan_from(st, seq![t1, t2]) == (match parse_step(st, t1) {
            Ok(s) => parse_step(s, t2),
            Err(e) => Err(e),
        }),
{
    assert(seq![t1, t2].drop_last() =~= seq![t1]);
    lemma_scan_one(st, t1);
}

/// Reading a path between statements leaves the reader after that path.
proof fn lemma_scan_path(st: ParseState, p: Seq<Seq<char>>)
    requires
        st.mode == ParseMode::Idle,
        p.len() >= 1,
    ensures
        scan_from(st, path_tokens(p)) == Ok::<ParseState, AptParseError>(
            ParseState { mode: ParseMode::AfterName(p), ..st },
        ),
    decreases p.len(),
{
    if p.len() == 1 {
        lemma_scan_one(st, TokenView::Word(p[0]));
        assert(seq![p[0]] =~= p);
    } else {
        lemma_scan_path(st, p.drop_last());
        let tail = seq![TokenView::Colon, TokenView::Colon, TokenView::Word(p.last())];
        lemma_scan_concat(st, path_tokens(p.drop_last()), tail);
        let s1 = ParseState { mode: ParseMode::AfterName(p.drop_last()), ..st };
        assert(tail.drop_last() =~= seq![TokenView::Colon, TokenView::Colon]);
        lemma_scan_two(s1, TokenView::Colon, TokenView::Colon);
        assert(p.drop_last().push(p.last()) =~= p);
    }
}

/// Reading assignments between statements records their entries, each behind the path of the
/// open scopes.
proof fn lemma_scan_assignments(st: ParseState, stmts: Seq<(Seq<Seq<char>>, Seq<char>)>)
    requires
        st.mode == ParseMode::Idle,
        forall|i: int| 0 <= i < stmts.len() ==> (#[trigger] stmts[i]).0.len() >= 1,
        forall|i: int| 0 <= i < stmts.len() ==> st.prefix.len() + (#[trigger] stmts[i]).0.len() >= 2,
    ensures
        scan_from(st, assignment_tokens(stmts)) == Ok::<ParseState, AptParseError>(
            ParseState { entries: st.entries + assignment_entries(st.prefix, stmts), ..st },
        ),
    decreases stmts.len(),
{
    if stmts.len() == 0 {
        assert(st.entries + assignment_entries(st.prefix, stmts) =~= st.entries);
    } else {
        let init = stmts.drop_last();
        let (q, v) = stmts.last();
        assert forall|i: int| 0 <= i < init.len() implies (#[trigger] init[i]).0.len() >= 1
            && st.prefix.len() + init[i].0.len() >= 2 by {
            assert(init[i] == stmts[i]);
        }
        lemma_scan_assignments(st, init);
        let s1 = ParseState { entries: st.entries + assignment_entries(st.prefix, init), ..st };
        assert(q.len() >= 1 && st.prefix.len() + q.len() >= 2) by {
            assert(stmts[stmts.len() - 1] == stmts.last());
        }
        let tail = seq![TokenView::Text(v), TokenView::Semicolon];
        lemma_scan_concat(st, assignment_tokens(init) + path_tokens(q), tail);
        lemma_scan_concat(st, assignment_tokens(init), path_tokens(q));
        lemma_scan_path(s1, q);
        let s2 = ParseState { mode: ParseMode::AfterName(q), ..s1 };
        lemma_scan_two(s2, TokenView::Text(v), TokenView::Semicolon);
        assert(st.entries + assignment_entries(st.prefix, stmts) =~= (st.entries
            + assignment_entries(st.prefix, init)).push(
            EntryView { path: st.prefix + q, leaf: EntryLeaf::Value(v) },
        ));
    }
}

/// A scope is another way of writing a path: `p { q1 "v1"; ...; qn "vn"; };` sets the same
/// entries as `p::q1 "v1"; ...; p::qn "vn";`, and so builds the same tree, for a path `p` and
/// assignments of nonempty paths.
pub proof fn law_scope_is_path(p: Seq<Seq<char>>, stmts: Seq<(Seq<Seq<char>>, Seq<char>)>)
    requires
        p.len() >= 1,
        forall|i: int| 0 <= i < stmts.len() ==> (#[trigger] stmts[i]).0.len() >= 1,
    ensures
        spec_statements(
            path_tokens(p) + seq![TokenView::Open] + assignment_tokens(stmts) + seq![
                TokenView::Close,
                TokenView::Semicolon,
            ],
        ) == spec_statements(assignment_tokens(under_path(p, stmts))),
        spec_statements(
            path_tokens(p) + seq![TokenView::Open] + assignment_tokens(stmts) + seq![
                TokenView::Close,
                TokenView::Semicolon,
            ],
        ) matches Ok(es1) ==> spec_statements(assignment_tokens(under_path(p, stmts))) matches Ok(
            es2,
        ) && tree_of(es1) == tree_of(es2),
{
    let init = initial_state();
    let body = assignment_tokens(stmts);
    let close = seq![TokenView::Close, TokenView::Semicolon];
    let scoped = path_tokens(p) + seq![TokenView::Open] + body + close;
    let flat_stmts = under_path(p, stmts);
    // parse_scan is reading from the initial state
    lemma_parse_scan_is_scan_from(scoped);
    lemma_parse_scan_is_scan_from(assignment_tokens(flat_stmts));
    // the scoped form
    lemma_scan_concat(init, path_tokens(p) + seq![TokenView::Open] + body, close);
    lemma_scan_concat(init, path_tokens(p) + seq![TokenView::Open], body);
    lemma_scan_concat(init, path_tokens(p), seq![TokenView::Open]);
    lemma_scan_path(init, p);
    let opened = ParseState {
        mode: ParseMode::Idle,
        prefix: Seq::<Seq<char>>::empty() + p,
        marks: Seq::<nat>::empty().push(0),
        entries: Seq::empty(),
    };
    lemma_scan_one(
        ParseState { mode: ParseMode::AfterName(p), ..init },
        TokenView::Open,
    );
    assert(scan_from(init, path_tokens(p) + seq![TokenView::Open]) == Ok::<
        ParseState,
        AptParseError,
    >(opened));
    assert forall|i: int| 0 <= i < stmts.len() implies opened.prefix.len() + (
    #[trigger] stmts[i]).0.len() >= 2 by {}
    lemma_scan_assignments(opened, stmts);
    let filled = ParseState {
        entries: opened.entries + assignment_entries(opened.prefix, stmts),
        ..opened
    };
    lemma_scan_two(filled, TokenView::Close, TokenView::Semicolon);
    assert(filled.prefix.take(0) =~= Seq::<Seq<char>>::empty());
    assert(filled.marks.drop_last() =~= Seq::<nat>::empty());
    // the flat form
    assert forall|i: int| 0 <= i < flat_stmts.len() implies (#[trigger] flat_stmts[i]).0.len()
        >= 1 && init.prefix.len() + flat_stmts[i].0.len() >= 2 by {
        assert(flat_stmts[i] == (p + stmts[i].0, stmts[i].1));
    }
    lemma_scan_assignments(init, flat_stmts);
    assert(opened.prefix =~= p);
    assert(Seq::<EntryView>::empty() + assignment_entries(p, stmts) =~= Seq::<EntryView>::empty()
        + assignment_entries(Seq::<Seq<char>>::empty(), flat_stmts)) by {
        assert forall|i: int| 0 <= i < stmts.len() implies assignment_entries(
            Seq::<Seq<char>>::empty(),
            flat_stmts,
        )[i] == assignment_entries(p, stmts)[i] by {
            assert(Seq::<Seq<char>>::empty() + (p + stmts[i].0) =~= p + stmts[i].0);
        }
    }
}

/// Reading from the start is reading from the initial state.
proof fn lemma_parse_scan_is_scan_from(toks: Seq<TokenView>)
    ensures
        parse_scan(toks) == scan_from(initial_state(), toks),
    decreases toks.len(),
{
    if toks.len() > 0 {
        lemma_parse_scan_is_scan_from(toks.drop_last());
    }
}

/// A statement of the configuration language, in mathematical form: an assignment
/// `path "value";`, or a block `path { ... };` of statements.
pub enum Stmt {
    Assign(Seq<Seq<char>>, Seq<char>),
    Block(Seq<Seq<char>>, Seq<Stmt>),
}

/// The tokens of a statement.
pub open spec fn stmt_tokens(s: Stmt) -> Seq<TokenView>
    decreases s,
{
    match s {
        Stmt::Assign(p, v) => path_tokens(p) + seq![TokenView::Text(v), TokenView::Semicolon],
        Stmt::Block(p, body) => path_tokens(p) + seq![TokenView::Open] + stmts_tokens(body) + seq![
            TokenView::Close,
            TokenView::Semicolon,
        ],
    }
}

/// The tokens of statements, one after the other.
pub open spec fn stmts_tokens(ss: Seq<Stmt>) -> Seq<TokenView>
    decreases ss,
{
    if ss.len() == 0 {
        Seq::empty()
    } else {
        stmts_tokens(ss.subrange(0, ss.len() - 1)) + stmt_tokens(ss[ss.len() - 1])
    }
}

/// The assignments that a statement makes, each with its full path, inside the path
/// `prefix`.
pub open spec fn stmt_flat(prefix: Seq<Seq<char>>, s: Stmt) -> Seq<(Seq<Seq<char>>, Seq<char>)>
    decreases s,
{
    match s {
        Stmt::Assign(p, v) => seq![(prefix + p, v)],
        Stmt::Block(p, body) => stmts_flat(prefix + p, body),
    }
}

/// The assignments that statements make, in order, each with its full path.
pub open spec fn stmts_flat(prefix: Seq<Seq<char>>, ss: Seq<Stmt>) -> Seq<
    (Seq<Seq<char>>, Seq<char>),
>
    decreases ss,
{
    if ss.len() == 0 {
        Seq::empty()
    } else {
        stmts_flat(prefix, ss.subrange(0, ss.len() - 1)) + stmt_flat(prefix, ss[ss.len() - 1])
    }
}

/// Statements that the reader takes inside the path `prefix`: every path has a name, and
/// every value sits inside a scope (its full path has at least two names).
pub open spec fn stmt_ok(prefix: Seq<Seq<char>>, s: Stmt) -> bool
    decreases s,
{
    match s {
        Stmt::Assign(p, v) => p.len() >= 1 && prefix.len() + p.len() >= 2,
        Stmt::Block(p, body) => p.len() >= 1 && stmts_ok(prefix + p, body),
    }
}

/// See [`stmt_ok`].
pub open spec fn stmts_ok(prefix: Seq<Seq<char>>, ss: Seq<Stmt>) -> bool
    decreases ss,
{
    if ss.len() == 0 {
        true
    } else {
        stmts_ok(prefix, ss.subrange(0, ss.len() - 1)) && stmt_ok(prefix, ss[ss.len() - 1])
    }
}

/// Reading a statement between statements records the entries of its assignments and comes
/// back between statements, with the same open scopes.
proof fn lemma_scan_stmt(st: ParseState, s: Stmt)
    requires
        st.mode == ParseMode::Idle,
        stmt_ok(st.prefix, s),
    ensures
        scan_from(st, stmt_tokens(s)) == Ok::<ParseState, AptParseError>(
            ParseState {
                entries: st.entries + assignment_entries(Seq::empty(), stmt_flat(st.prefix, s)),
                ..st
            },
        ),
        forall|i: int|
            0 <= i < stmt_flat(st.prefix, s).len() ==> (#[trigger] stmt_flat(st.prefix, s)[i]).0.len()
                >= 2,
    decreases s,
{
    match s {
        Stmt::Assign(p, v) => {
            let tail = seq![TokenView::Text(v), TokenView::Semicolon];
            lemma_scan_concat(st, path_tokens(p), tail);
            lemma_scan_path(st, p);
            lemma_scan_two(ParseState { mode: ParseMode::AfterName(p), ..st }, TokenView::Text(v), TokenView::Semicolon);
            assert(st.entries + assignment_entries(Seq::empty(), seq![(st.prefix + p, v)]) =~= st.entries.push(
                EntryView { path: st.prefix + p, leaf: EntryLeaf::Value(v) },
            )) by {
                assert(Seq::<Seq<char>>::empty() + (st.prefix + p) =~= st.prefix + p);
            }
        },
        Stmt::Block(p, body) => {
            let open = path_tokens(p) + seq![TokenView::Open];
            let close = seq![TokenView::Close, TokenView::Semicolon];
            lemma_scan_concat(st, open + stmts_tokens(body), close);
            lemma_scan_concat(st, open, stmts_tokens(body));
            lemma_scan_concat(st, path_tokens(p), seq![TokenView::Open]);
            lemma_scan_path(st, p);
            lemma_scan_one(ParseState { mode: ParseMode::AfterName(p), ..st }, TokenView::Open);
            let opened = ParseState {
                mode: ParseMode::Idle,
                prefix: st.prefix + p,
                marks: st.marks.push(st.prefix.len()),
                entries: st.entries,
            };
            lemma_scan_stmts(opened, body);
            let filled = ParseState {
                entries: st.entries + assignment_entries(Seq::empty(), stmts_flat(st.prefix + p, body)),
                ..opened
            };
            lemma_scan_two(filled, TokenView::Close, TokenView::Semicolon);
            assert(filled.prefix.take(st.prefix.len() as int) =~= st.prefix);
            assert(filled.marks.drop_last() =~= st.marks);
        },
    }
}

/// Reading statements between statements records the entries of their assignments, in
/// order, and comes back between statements, with the same open scopes.
proof fn lemma_scan_stmts(st: ParseState, ss: Seq<Stmt>)
    requires
        st.mode == ParseMode::Idle,
        stmts_ok(st.prefix, ss),
    ensures
        scan_from(st, stmts_tokens(ss)) == Ok::<ParseState, AptParseError>(
            ParseState {
                entries: st.entries + assignment_entries(Seq::empty(), stmts_flat(st.prefix, ss)),
                ..st
            },
        ),
        forall|i: int|
            0 <= i < stmts_flat(st.prefix, ss).len() ==> (#[trigger] stmts_flat(st.prefix, ss)[i]).0.len()
                >= 2,
    decreases ss,
{
    if ss.len() == 0 {
        assert(st.entries + assignment_entries(Seq::empty(), stmts_flat(st.prefix, ss)) =~= st.entries);
        assert(scan_from(st, stmts_tokens(ss)) == Ok::<ParseState, AptParseError>(st)) by {
            assert(stmts_tokens(ss).len() == 0);
        }
    } else {
        let init = ss.subrange(0, ss.len() - 1);
        let last = ss[ss.len() - 1];
        lemma_scan_stmts(st, init);
        let mid = ParseState {
            entries: st.entries + assignment_entries(Seq::empty(), stmts_flat(st.prefix, init)),
            ..st
        };
        lemma_scan_concat(st, stmts_tokens(init), stmt_tokens(last));
        lemma_scan_stmt(mid, last);
        let a = stmts_flat(st.prefix, init);
        let b = stmt_flat(st.prefix, last);
        assert(assignment_entries(Seq::empty(), a + b) =~= assignment_entries(Seq::empty(), a)
            + assignment_entries(Seq::empty(), b));
        assert(st.entries + assignment_entries(Seq::empty(), a) + assignment_entries(Seq::empty(), b)
            =~= st.entries + assignment_entries(Seq::empty(), a + b));
        assert forall|i: int| 0 <= i < (a + b).len() implies (#[trigger] (a + b)[i]).0.len() >= 2 by {
            if i < a.len() {
                assert((a + b)[i] == a[i]);
            } else {
                assert((a + b)[i] == b[i - a.len()]);
            }
        }
    }
}

/// Blocks are another way of writing paths, at any depth: statements with nested blocks set
/// the same entries, and so build the same tree, as the assignments they make written one
/// after the other with their full paths, for statements whose paths have a name each and
/// whose values sit inside a scope.
pub proof fn law_blocks_are_paths(ss: Seq<Stmt>)
    requires
        stmts_ok(Seq::empty(), ss),
    ensures
        spec_statements(stmts_tokens(ss)) == spec_statements(
            assignment_tokens(stmts_flat(Seq::empty(), ss)),
        ),
        spec_statements(stmts_tokens(ss)) matches Ok(es) && tree_of(es) == tree_of(
            assignment_entries(Seq::empty(), stmts_flat(Seq::empty(), ss)),
        ),
{
    let init = initial_state();
    let flat = stmts_flat(Seq::empty(), ss);
    lemma_parse_scan_is_scan_from(stmts_tokens(ss));
    lemma_parse_scan_is_scan_from(assignment_tokens(flat));
    lemma_scan_stmts(init, ss);
    assert forall|i: int| 0 <= i < flat.len() implies (#[trigger] flat[i]).0.len() >= 1
        && init.prefix.len() + flat[i].0.len() >= 2 by {}
    lemma_scan_assignments(init, flat);
}

/// A name that the tokenizer reads as one word: not empty, no white space, brace, `;`,
/// `:` or `"` in it, and not starting a comment (`/` or `#`).
pub open spec fn is_name(w: Seq<char>) -> bool {
    &&& w.len() > 0
    &&& w[0] != '/'
    &&& w[0] != '#'
    &&& forall|i: int| 0 <= i < w.len() ==> !is_space(#[trigger] w[i]) && !is_delimiter(w[i])
}

/// A value that can be written between double quotes: it holds no `"`.
pub open spec fn is_value(v: Seq<char>) -> bool {
    forall|i: int| 0 <= i < v.len() ==> v[i] != '"'
}

/// Every name of a path can be written as a word.
pub open spec fn path_written(p: Seq<Seq<char>>) -> bool {
    forall|i: int| 0 <= i < p.len() ==> is_name(#[trigger] p[i])
}

/// A path written out: its names joined by `::`.
pub open spec fn render_path(p: Seq<Seq<char>>) -> Seq<char>
    decreases p.len(),
{
    if p.len() <= 1 {
        if p.len() == 1 {
            p[0]
        } else {
            Seq::empty()
        }
    } else {
        render_path(p.drop_last()) + seq![':', ':'] + p.last()
    }
}

/// A statement written out: `path "value";` or `path {`, the statements inside, `};`, each on
/// its own line.
pub open spec fn render_stmt(s: Stmt) -> Seq<char>
    decreases s,
{
    match s {
        Stmt::Assign(p, v) => render_path(p) + seq![' ', '"'] + v + seq!['"', ';', '\n'],
        Stmt::Block(p, body) => render_path(p) + seq![' ', '{', '\n'] + render_stmts(body) + seq![
            '}',
            ';',
            '\n',
        ],
    }
}

/// Statements written out, one after the other.
pub open spec fn render_stmts(ss: Seq<Stmt>) -> Seq<char>
    decreases ss,
{
    if ss.len() == 0 {
        Seq::empty()
    } else {
        render_stmts(ss.subrange(0, ss.len() - 1)) + render_stmt(ss[ss.len() - 1])
    }
}

/// A statement whose names and values can all be written out.
pub open spec fn stmt_written(s: Stmt) -> bool
    decreases s,
{
    match s {
        Stmt::Assign(p, v) => path_written(p) && is_value(v),
        Stmt::Block(p, body) => path_written(p) && stmts_written(body),
    }
}

/// See [`stmt_written`].
pub open spec fn stmts_written(ss: Seq<Stmt>) -> bool
    decreases ss,
{
    if ss.len() == 0 {
        true
    } else {
        stmts_written(ss.subrange(0, ss.len() - 1)) && stmt_written(ss[ss.len() - 1])
    }
}

/// Assignments as statements.
pub open spec fn as_assigns(f: Seq<(Seq<Seq<char>>, Seq<char>)>) -> Seq<Stmt> {
    f.map_values(|a: (Seq<Seq<char>>, Seq<char>)| Stmt::Assign(a.0, a.1))
}

/// The tokenizer's state after `s`, started from `st`.
pub open spec fn lex_from(st: (Seq<TokenView>, LexMode), s: Seq<char>) -> (Seq<TokenView>, LexMode)
    decreases s.len(),
{
    if s.len() == 0 {
        st
    } else {
        lex_step(lex_from(st, s.drop_last()), s.last())
    }
}

proof fn lemma_lex_concat(st: (Seq<TokenView>, LexMode), a: Seq<char>, b: Seq<char>)
    ensures
        lex_from(st, a + b) == lex_from(lex_from(st, a), b),
    decreases b.len(),
{
    if b.len() == 0 {
        assert(a + b =~= a);
    } else {
        assert((a + b).drop_last() =~= a + b.drop_last());
        assert((a + b).last() == b.last());
        lemma_lex_concat(st, a, b.drop_last());
    }
}

proof fn lemma_lex_scan_is_lex_from(s: Seq<char>)
    ensures
        lex_scan(s) == lex_from((Seq::empty(), LexMode::Normal), s),
    decreases s.len(),
{
    if s.len() > 0 {
        lemma_lex_scan_is_lex_from(s.drop_last());
    }
}

/// Reading characters one by one.
proof fn lemma_lex_chars(st: (Seq<TokenView>, LexMode), c: Seq<char>)
    requires
        c.len() == 1 || c.len() == 2 || c.len() == 3,
    ensures
        c.len() == 1 ==> lex_from(st, c) == lex_step(st, c[0]),
        c.len() == 2 ==> lex_from(st, c) == lex_step(lex_step(st, c[0]), c[1]),
        c.len() == 3 ==> lex_from(st, c) == lex_step(lex_step(lex_step(st, c[0]), c[1]), c[2]),
{
    let e = Seq::<char>::empty();
    assert(lex_from(st, e) == st);
    let c1 = seq![c[0]];
    assert(c1.drop_last() =~= e);
    assert(lex_from(st, c1) == lex_step(st, c[0]));
    if c.len() == 1 {
        assert(c =~= c1);
    } else {
        let c2 = seq![c[0], c[1]];
        assert(c2.drop_last() =~= c1);
        assert(lex_from(st, c2) == lex_step(lex_step(st, c[0]), c[1]));
        if c.len() == 2 {
            assert(c =~= c2);
        } else {
            assert(c.drop_last() =~= c2);
        }
    }
}

/// Reading a name between tokens leaves the tokenizer in the middle of that word.
proof fn lemma_lex_name(toks: Seq<TokenView>, w: Seq<char>)
    requires
        is_name(w),
    ensures
        lex_from((toks, LexMode::Normal), w) == (toks, LexMode::Word(w)),
    decreases w.len(),
{
    if w.len() == 1 {
        assert(w.drop_last() =~= Seq::<char>::empty());
        assert(!is_space(w[0]) && !is_delimiter(w[0]));
        assert(seq![w[0]] =~= w);
    } else {
        let init = w.drop_last();
        assert(is_name(init)) by {
            assert forall|i: int| 0 <= i < init.len() implies !is_space(#[trigger] init[i])
                && !is_delimiter(init[i]) by {
                assert(init[i] == w[i]);
            }
        }
        lemma_lex_name(toks, init);
        assert(!is_space(w[w.len() - 1]) && !is_delimiter(w[w.len() - 1]));
        assert(init.push(w.last()) =~= w);
    }
}

/// Reading a quoted text up to its closing quote.
proof fn lemma_lex_quoted(toks: Seq<TokenView>, q: Seq<char>, v: Seq<char>)
    requires
        is_value(v),
    ensures
        lex_from((toks, LexMode::Quoted(q)), v) == (toks, LexMode::Quoted(q + v)),
    decreases v.len(),
{
    if v.len() == 0 {
        assert(q + v =~= q);
    } else {
        assert(is_value(v.drop_last())) by {
            assert forall|i: int| 0 <= i < v.drop_last().len() implies v.drop_last()[i] != '"' by {
                assert(v.drop_last()[i] == v[i]);
            }
        }
        lemma_lex_quoted(toks, q, v.drop_last());
        assert(v[v.len() - 1] != '"');
        assert((q + v.drop_last()).push(v.last()) =~= q + v);
    }
}

/// The tokens of a path but its last name.
pub open spec fn path_head_tokens(p: Seq<Seq<char>>) -> Seq<TokenView> {
    path_tokens(p).drop_last()
}

/// Reading a written path between tokens gives the tokens of all its names but the last, and
/// leaves the tokenizer in the middle of the last name.
proof fn lemma_lex_path(toks: Seq<TokenView>, p: Seq<Seq<char>>)
    requires
        p.len() >= 1,
        path_written(p),
    ensures
        lex_from((toks, LexMode::Normal), render_path(p)) == (
            toks + path_head_tokens(p),
            LexMode::Word(p.last()),
        ),
        path_tokens(p) == path_head_tokens(p).push(TokenView::Word(p.last())),
    decreases p.len(),
{
    if p.len() == 1 {
        lemma_lex_name(toks, p[0]);
        assert(path_tokens(p).drop_last() =~= Seq::<TokenView>::empty());
        assert(toks + Seq::<TokenView>::empty() =~= toks);
        assert(path_tokens(p) =~= Seq::<TokenView>::empty().push(TokenView::Word(p.last())));
    } else {
        let init = p.drop_last();
        assert(path_written(init)) by {
            assert forall|i: int| 0 <= i < init.len() implies is_name(#[trigger] init[i]) by {
                assert(init[i] == p[i]);
            }
        }
        lemma_lex_path(toks, init);
        let st1 = (toks + path_head_tokens(init), LexMode::Word(init.last()));
        lemma_lex_concat((toks, LexMode::Normal), render_path(init) + seq![':', ':'], p.last());
        lemma_lex_concat((toks, LexMode::Normal), render_path(init), seq![':', ':']);
        lemma_lex_chars(st1, seq![':', ':']);
        let t2 = toks + path_head_tokens(init) + seq![
            TokenView::Word(init.last()),
            TokenView::Colon,
            TokenView::Colon,
        ];
        assert(lex_from(st1, seq![':', ':']) == (t2, LexMode::Normal)) by {
            assert((toks + path_head_tokens(init)).push(TokenView::Word(init.last())).push(
                TokenView::Colon,
            ).push(TokenView::Colon) =~= t2);
        }
        assert(is_name(p[p.len() - 1]));
        lemma_lex_name(t2, p.last());
        assert(path_tokens(p) =~= path_tokens(init) + seq![
            TokenView::Colon,
            TokenView::Colon,
            TokenView::Word(p.last()),
        ]);
        assert(path_head_tokens(p) =~= path_head_tokens(init) + seq![
            TokenView::Word(init.last()),
            TokenView::Colon,
            TokenView::Colon,
        ]);
        assert(t2 =~= toks + path_head_tokens(p));
    }
}

/// Reading a written statement between tokens gives its tokens and ends between tokens.
proof fn lemma_lex_stmt(toks: Seq<TokenView>, prefix: Seq<Seq<char>>, s: Stmt)
    requires
        stmt_ok(prefix, s),
        stmt_written(s),
    ensures
        lex_from((toks, LexMode::Normal), render_stmt(s)) == (toks + stmt_tokens(s), LexMode::Normal),
    decreases s,
{
    let n = (toks, LexMode::Normal);
    match s {
        Stmt::Assign(p, v) => {
            let a = render_path(p);
            let b = seq![' ', '"'];
            let c = seq!['"', ';', '\n'];
            lemma_lex_concat(n, a + b + v, c);
            lemma_lex_concat(n, a + b, v);
            lemma_lex_concat(n, a, b);
            lemma_lex_path(toks, p);
            let t1 = toks + path_head_tokens(p);
            lemma_lex_chars((t1, LexMode::Word(p.last())), b);
            let t2 = t1.push(TokenView::Word(p.last()));
            lemma_lex_quoted(t2, Seq::empty(), v);
            assert(Seq::<char>::empty() + v =~= v);
            lemma_lex_chars((t2, LexMode::Quoted(v)), c);
            assert(t2.push(TokenView::Text(v)).push(TokenView::Semicolon) =~= toks + stmt_tokens(s));
        },
        Stmt::Block(p, body) => {
            let a = render_path(p);
            let b = seq![' ', '{', '\n'];
            let c = seq!['}', ';', '\n'];
            lemma_lex_concat(n, a + b + render_stmts(body), c);
            lemma_lex_concat(n, a + b, render_stmts(body));
            lemma_lex_concat(n, a, b);
            lemma_lex_path(toks, p);
            let t1 = toks + path_head_tokens(p);
            lemma_lex_chars((t1, LexMode::Word(p.last())), b);
            let t2 = t1.push(TokenView::Word(p.last())).push(TokenView::Open);
            lemma_lex_stmts(t2, prefix + p, body);
            let t3 = t2 + stmts_tokens(body);
            lemma_lex_chars((t3, LexMode::Normal), c);
            assert(t3.push(TokenView::Close).push(TokenView::Semicolon) =~= toks + stmt_tokens(s));
        },
    }
}

/// Reading written statements between tokens gives their tokens and ends between tokens.
proof fn lemma_lex_stmts(toks: Seq<TokenView>, prefix: Seq<Seq<char>>, ss: Seq<Stmt>)
    requires
        stmts_ok(prefix, ss),
        stmts_written(ss),
    ensures
        lex_from((toks, LexMode::Normal), render_stmts(ss)) == (
            toks + stmts_tokens(ss),
            LexMode::Normal,
        ),
    decreases ss,
{
    if ss.len() == 0 {
        assert(toks + stmts_tokens(ss) =~= toks);
        assert(render_stmts(ss).len() == 0);
    } else {
        let init = ss.subrange(0, ss.len() - 1);
        let last = ss[ss.len() - 1];
        lemma_lex_concat((toks, LexMode::Normal), render_stmts(init), render_stmt(last));
        lemma_lex_stmts(toks, prefix, init);
        lemma_lex_stmt(toks + stmts_tokens(init), prefix, last);
        assert(toks + stmts_tokens(init) + stmt_tokens(last) =~= toks + stmts_tokens(ss));
    }
}

/// The assignments of written statements have written paths and values.
proof fn lemma_stmt_flat_written(prefix: Seq<Seq<char>>, s: Stmt)
    requires
        path_written(prefix),
        stmt_ok(prefix, s),
        stmt_written(s),
    ensures
        forall|i: int|
            0 <= i < stmt_flat(prefix, s).len() ==> path_written((#[trigger] stmt_flat(prefix, s)[i]).0)
                && is_value(stmt_flat(prefix, s)[i].1),
    decreases s,
{
    match s {
        Stmt::Assign(p, v) => {
            assert(path_written(prefix + p)) by {
                assert forall|i: int| 0 <= i < (prefix + p).len() implies is_name(
                    #[trigger] (prefix + p)[i],
                ) by {
                    if i < prefix.len() {
                        assert((prefix + p)[i] == prefix[i]);
                    } else {
                        assert((prefix + p)[i] == p[i - prefix.len()]);
                    }
                }
            }
            assert(stmt_flat(prefix, s) == seq![(prefix + p, v)]);
            assert(stmt_flat(prefix, s)[0] == (prefix + p, v));
            assert(stmt_written(s));
            assert(is_value(v));
            assert forall|i: int| 0 <= i < stmt_flat(prefix, s).len() implies path_written(
                (#[trigger] stmt_flat(prefix, s)[i]).0,
            ) && is_value(stmt_flat(prefix, s)[i].1) by {
                assert(i == 0);
            }
        },
        Stmt::Block(p, body) => {
            assert(path_written(prefix + p)) by {
                assert forall|i: int| 0 <= i < (prefix + p).len() implies is_name(
                    #[trigger] (prefix + p)[i],
                ) by {
                    if i < prefix.len() {
                        assert((prefix + p)[i] == prefix[i]);
                    } else {
                        assert((prefix + p)[i] == p[i - prefix.len()]);
                    }
                }
            }
            lemma_stmts_flat_written(prefix + p, body);
            assert(stmt_flat(prefix, s) == stmts_flat(prefix + p, body));
        },
    }
}

/// See [`lemma_stmt_flat_written`].
proof fn lemma_stmts_flat_written(prefix: Seq<Seq<char>>, ss: Seq<Stmt>)
    requires
        path_written(prefix),
        stmts_ok(prefix, ss),
        stmts_written(ss),
    ensures
        forall|i: int|
            0 <= i < stmts_flat(prefix, ss).len() ==> path_written(
                (#[trigger] stmts_flat(prefix, ss)[i]).0,
            ) && is_value(stmts_flat(prefix, ss)[i].1),
    decreases ss,
{
    if ss.len() > 0 {
        let init = ss.subrange(0, ss.len() - 1);
        let last = ss[ss.len() - 1];
        lemma_stmts_flat_written(prefix, init);
        lemma_stmt_flat_written(prefix, last);
        let a = stmts_flat(prefix, init);
        let b = stmt_flat(prefix, last);
        assert forall|i: int| 0 <= i < (a + b).len() implies path_written((#[trigger] (a + b)[i]).0)
            && is_value((a + b)[i].1) by {
            if i < a.len() {
                assert((a + b)[i] == a[i]);
            } else {
                assert((a + b)[i] == b[i - a.len()]);
            }
        }
    }
}

/// Assignments written as statements: their tokens, and what the reader and the writer need
/// of them.
proof fn lemma_as_assigns(f: Seq<(Seq<Seq<char>>, Seq<char>)>)
    requires
        forall|i: int|
            0 <= i < f.len() ==> (#[trigger] f[i]).0.len() >= 2 && path_written(f[i].0) && is_value(
                f[i].1,
            ),
    ensures
        stmts_tokens(as_assigns(f)) == assignment_tokens(f),
        stmts_ok(Seq::empty(), as_assigns(f)),
        stmts_written(as_assigns(f)),
    decreases f.len(),
{
    if f.len() == 0 {
        assert(as_assigns(f).len() == 0);
        assert(stmts_tokens(as_assigns(f)) =~= assignment_tokens(f));
    } else {
        let g = as_assigns(f);
        let init = f.drop_last();
        assert forall|i: int| 0 <= i < init.len() implies (#[trigger] init[i]).0.len() >= 2
            && path_written(init[i].0) && is_value(init[i].1) by {
            assert(init[i] == f[i]);
        }
        lemma_as_assigns(init);
        assert(g.subrange(0, g.len() - 1) =~= as_assigns(init));
        assert(f[f.len() - 1] == f.last());
        assert(g[g.len() - 1] == Stmt::Assign(f.last().0, f.last().1));
        assert(Seq::<Seq<char>>::empty().len() + f.last().0.len() >= 2);
        assert(stmt_ok(Seq::empty(), g[g.len() - 1]));
        assert(stmt_written(g[g.len() - 1]));
        assert(stmts_tokens(g) =~= stmts_tokens(as_assigns(init)) + stmt_tokens(g[g.len() - 1]));
        assert(stmts_tokens(g) =~= assignment_tokens(f));
    }
}

/// Blocks are another way of writing paths, in the text itself: written statements with
/// nested blocks set the same entries, and so parse into the same tree, as the text of the
/// assignments they make, written one per line with their full paths; both texts are read
/// without error. This holds for statements whose paths have a name each, whose values sit
/// inside a scope, and whose names and values can be written (see [`is_name`] and
/// [`is_value`]).
pub proof fn law_blocks_are_paths_in_text(ss: Seq<Stmt>)
    requires
        stmts_ok(Seq::empty(), ss),
        stmts_written(ss),
    ensures
        spec_entries(render_stmts(ss)) is Ok,
        spec_entries(render_stmts(ss)) == spec_entries(
            render_stmts(as_assigns(stmts_flat(Seq::empty(), ss))),
        ),
{
    let flat = stmts_flat(Seq::empty(), ss);
    let e = Seq::<TokenView>::empty();
    lemma_lex_scan_is_lex_from(render_stmts(ss));
    lemma_lex_stmts(e, Seq::empty(), ss);
    assert(e + stmts_tokens(ss) =~= stmts_tokens(ss));
    lemma_scan_stmts(initial_state(), ss);
    lemma_stmts_flat_written(Seq::empty(), ss);
    lemma_as_assigns(flat);
    lemma_lex_scan_is_lex_from(render_stmts(as_assigns(flat)));
    lemma_lex_stmts(e, Seq::empty(), as_assigns(flat));
    assert(e + stmts_tokens(as_assigns(flat)) =~= stmts_tokens(as_assigns(flat)));
    law_blocks_are_paths(ss);
}

/// White space between tokens is interchangeable: outside a quoted text and a comment,
/// putting a space, a tab, a line break or a carriage return in place of another of them
/// changes neither the tokens of a text nor the entries it sets.
pub proof fn law_white_space_interchangeable(a: Seq<char>, b: Seq<char>, c1: char, c2: char)
    requires
        c1 == ' ' || c1 == '\t' || c1 == '\n' || c1 == '\r',
        c2 == ' ' || c2 == '\t' || c2 == '\n' || c2 == '\r',
        !(lex_scan(a).1 is Quoted),
        !(lex_scan(a).1 is Comment),
    ensures
        spec_tokenize(a + seq![c1] + b) == spec_tokenize(a + seq![c2] + b),
        spec_entries(a + seq![c1] + b) == spec_entries(a + seq![c2] + b),
{
    let init = (Seq::<TokenView>::empty(), LexMode::Normal);
    lemma_lex_scan_is_lex_from(a);
    lemma_lex_scan_is_lex_from(a + seq![c1] + b);
    lemma_lex_scan_is_lex_from(a + seq![c2] + b);
    lemma_lex_concat(init, a + seq![c1], b);
    lemma_lex_concat(init, a + seq![c2], b);
    lemma_lex_concat(init, a, seq![c1]);
    lemma_lex_concat(init, a, seq![c2]);
    let st = lex_scan(a);
    lemma_lex_chars(st, seq![c1]);
    lemma_lex_chars(st, seq![c2]);
    assert(lex_step(st, c1) == lex_step(st, c2));
}

} // verus!
