//! The proxy variables of `/etc/environment`: reading the proxy in use, setting and
//! removing the proxy lines, and the line format of the file.
use vstd::prelude::*;

use super::args::Commands;
use super::text::{
    after_last, ascii_lower, ascii_upper, chars_of, contains, is_ascii_text, last_piece,
    lowercase_of, occurs_at, push_char, remove_char, str_contains, string_from_chars,
    to_ascii_uppercase, to_lowercase, without_char,
};
use super::{proxy_name, ProxyType};

verus! {

// ----------------------------------------------------------------------------------------
// Model
// ----------------------------------------------------------------------------------------

/// The index of the first line that contains `p`; `lines.len()` when no line does.
pub open spec fn first_with(lines: Seq<Seq<char>>, p: Seq<char>) -> int
    decreases lines.len(),
{
    if lines.len() == 0 {
        0
    } else if contains(lines[0], p) {
        0
    } else {
        1 + first_with(lines.drop_first(), p)
    }
}

/// The value of an assignment line: what follows its last `=`, without double quotes.
pub open spec fn proxy_value(line: Seq<char>) -> Seq<char> {
    without_char(after_last(line, '='), '"')
}

/// The proxy in use: the value of the first line that mentions `http_proxy`, if any.
pub open spec fn spec_get_configuration(lines: Seq<Seq<char>>) -> Option<Seq<char>> {
    let i = first_with(lines, proxy_name(ProxyType::Http));
    if i < lines.len() {
        Some(proxy_value(lines[i]))
    } else {
        None
    }
}

/// The line `<name>="<url>"`.
pub open spec fn assignment(name: Seq<char>, url: Seq<char>) -> Seq<char> {
    name + seq!['='] + seq!['"'] + url + seq!['"']
}

/// The variable names that `Add` sets, in order: each proxy variable but `no_proxy`, in lower
/// case and then in upper case.
pub open spec fn set_names() -> Seq<Seq<char>> {
    seq![
        proxy_name(ProxyType::Http),
        ascii_upper(proxy_name(ProxyType::Http)),
        proxy_name(ProxyType::Https),
        ascii_upper(proxy_name(ProxyType::Https)),
        proxy_name(ProxyType::Ftp),
        ascii_upper(proxy_name(ProxyType::Ftp)),
    ]
}

/// Puts `line` in place of the first line that contains `name`, or at the end when none does.
pub open spec fn set_line(lines: Seq<Seq<char>>, name: Seq<char>, line: Seq<char>) -> Seq<
    Seq<char>,
> {
    let i = first_with(lines, name);
    if i < lines.len() {
        lines.update(i, line)
    } else {
        lines.push(line)
    }
}

/// Sets the variables `names`, in order, to `url`.
pub open spec fn with_names_set(lines: Seq<Seq<char>>, names: Seq<Seq<char>>, url: Seq<char>) -> Seq<
    Seq<char>,
>
    decreases names.len(),
{
    if names.len() == 0 {
        lines
    } else {
        set_line(
            with_names_set(lines, names.drop_last(), url),
            names.last(),
            assignment(names.last(), url),
        )
    }
}

/// The lines after `Add` with proxy `url`.
pub open spec fn spec_added(lines: Seq<Seq<char>>, url: Seq<char>) -> Seq<Seq<char>> {
    with_names_set(lines, set_names(), url)
}

/// `n` is the name of a proxy variable.
pub open spec fn is_proxy_name(n: Seq<char>) -> bool {
    ||| n == proxy_name(ProxyType::Http)
    ||| n == proxy_name(ProxyType::Https)
    ||| n == proxy_name(ProxyType::Ftp)
    ||| n == proxy_name(ProxyType::NoProxy)
}

/// `line` holds the name of a proxy variable written in some mix of ASCII letter cases.
pub open spec fn holds_name_any_case(line: Seq<char>) -> bool {
    exists|w: Seq<char>| #[trigger] contains(line, w) && is_ascii_text(w) && is_proxy_name(ascii_lower(w))
}

/// A line mentions a proxy variable when its lower-case form (`str::to_lowercase`) contains
/// the name of one. Lower-casing keeps a run of ASCII characters as its ASCII lower-case
/// form, so this is the case in particular when the line holds a name in some mix of ASCII
/// letter cases; the last part says so outright.
pub open spec fn mentions_proxy(line: Seq<char>) -> bool {
    let low = lowercase_of(line);
    ||| contains(low, proxy_name(ProxyType::Http))
    ||| contains(low, proxy_name(ProxyType::Https))
    ||| contains(low, proxy_name(ProxyType::Ftp))
    ||| contains(low, proxy_name(ProxyType::NoProxy))
    ||| holds_name_any_case(line)
}

/// The lines after `Remove`: those that mention no proxy variable, in their order.
pub open spec fn spec_removed(lines: Seq<Seq<char>>) -> Seq<Seq<char>>
    decreases lines.len(),
{
    if lines.len() == 0 {
        lines
    } else if mentions_proxy(lines.last()) {
        spec_removed(lines.drop_last())
    } else {
        spec_removed(lines.drop_last()).push(lines.last())
    }
}

/// The lines joined by `\n`, with no final line break.
pub open spec fn join_lines(lines: Seq<Seq<char>>) -> Seq<char>
    decreases lines.len(),
{
    if lines.len() == 0 {
        Seq::empty()
    } else if lines.len() == 1 {
        lines[0]
    } else {
        join_lines(lines.drop_last()) + seq!['\n'] + lines.last()
    }
}

/// A line without the `\r` of a `\r\n` line break.
pub open spec fn strip_cr(l: Seq<char>) -> Seq<char> {
    if l.len() > 0 && l.last() == '\r' {
        l.drop_last()
    } else {
        l
    }
}

/// Reading `s` left to right: the lines ended so far, and the line being read.
pub open spec fn line_scan(s: Seq<char>) -> (Seq<Seq<char>>, Seq<char>)
    decreases s.len(),
{
    if s.len() == 0 {
        (Seq::empty(), Seq::empty())
    } else {
        let (done, cur) = line_scan(s.drop_last());
        if s.last() == '\n' {
            (done.push(strip_cr(cur)), Seq::empty())
        } else {
            (done, cur.push(s.last()))
        }
    }
}

/// The lines of a text as `str::lines` gives them: split at `\n` or `\r\n`, the final line
/// break optional.
pub open spec fn lines_of(s: Seq<char>) -> Seq<Seq<char>> {
    let (done, cur) = line_scan(s);
    if cur.len() > 0 {
        done.push(cur)
    } else {
        done
    }
}

/// What managing `/etc/environment` amounts to.
pub enum EnvironmentAction {
    /// Nothing is written; the proxy in use (if any) is reported.
    Report(Option<String>),
    /// The file is written with this content.
    Write(String),
}

/// The mathematical form of an [`EnvironmentAction`].
pub enum EnvironmentActionView {
    Report(Option<Seq<char>>),
    Write(Seq<char>),
}

impl View for EnvironmentAction {
    type V = EnvironmentActionView;

    open spec fn view(&self) -> EnvironmentActionView {
        match self {
            EnvironmentAction::Report(o) => EnvironmentActionView::Report(o.deep_view()),
            EnvironmentAction::Write(s) => EnvironmentActionView::Write(s@),
        }
    }
}

/// What a command does to `/etc/environment`, given its lines.
pub open spec fn spec_manage_proxy(c: Commands, lines: Seq<Seq<char>>) -> EnvironmentActionView {
    match c {
        Commands::Add { proxy_url } => EnvironmentActionView::Write(
            join_lines(spec_added(lines, proxy_url@)),
        ),
        Commands::Remove => EnvironmentActionView::Write(join_lines(spec_removed(lines))),
        Commands::Show => EnvironmentActionView::Report(spec_get_configuration(lines)),
    }
}

// ----------------------------------------------------------------------------------------
// Lemmas on the model
// ----------------------------------------------------------------------------------------

/// `first_with` is the index of the first line containing `p`.
pub(crate) proof fn lemma_first_with(lines: Seq<Seq<char>>, p: Seq<char>, i: int)
    requires
        0 <= i <= lines.len(),
        forall|k: int| 0 <= k < i ==> !contains(#[trigger] lines[k], p),
        i < lines.len() ==> contains(lines[i], p),
    ensures
        first_with(lines, p) == i,
    decreases i,
{
    if i > 0 {
        assert forall|k: int| 0 <= k < i - 1 implies !contains(#[trigger] lines.drop_first()[k], p) by {
            assert(lines.drop_first()[k] == lines[k + 1]);
        }
        lemma_first_with(lines.drop_first(), p, i - 1);
    }
}

/// What `first_with` tells of the lines before and at it.
pub(crate) proof fn lemma_first_with_facts(lines: Seq<Seq<char>>, p: Seq<char>)
    ensures
        0 <= first_with(lines, p) <= lines.len(),
        forall|k: int| 0 <= k < first_with(lines, p) ==> !contains(#[trigger] lines[k], p),
        first_with(lines, p) < lines.len() ==> contains(lines[first_with(lines, p)], p),
    decreases lines.len(),
{
    if lines.len() > 0 && !contains(lines[0], p) {
        lemma_first_with_facts(lines.drop_first(), p);
        assert forall|k: int| 0 <= k < first_with(lines, p) implies !contains(#[trigger] lines[k], p) by {
            if k > 0 {
                assert(lines[k] == lines.drop_first()[k - 1]);
            }
        }
    }
}

// ----------------------------------------------------------------------------------------
// Executable functions
// ----------------------------------------------------------------------------------------

/// The index of the first line that contains `p`, or the number of lines when none does.
fn find_line(lines: &Vec<String>, p: &str) -> (r: usize)
    ensures
        r == first_with(lines.deep_view(), p@),
{
    let ghost dv = lines.deep_view();
    let mut i: usize = 0;
    while i < lines.len()
        invariant
            i <= lines.len(),
            dv == lines.deep_view(),
            forall|k: int| 0 <= k < i ==> !contains(#[trigger] dv[k], p@),
        decreases lines.len() - i,
    {
        if str_contains(lines[i].as_str(), p) {
            proof {
                lemma_first_with(dv, p@, i as int);
            }
            return i;
        }
        i = i + 1;
    }
    proof {
        lemma_first_with(dv, p@, i as int);
    }
    i
}

/// The proxy in use according to the lines of `/etc/environment`: the value of the first line
/// that mentions `http_proxy` (after its last `=`, without double quotes), if there is one.
pub fn get_configuration(content_as_vec: &Vec<String>) -> (r: Option<String>)
    ensures
        r.deep_view() == spec_get_configuration(content_as_vec.deep_view()),
{
    let name = ProxyType::Http.to_string();
    let i = find_line(content_as_vec, name.as_str());
    if i < content_as_vec.len() {
        let last = last_piece(content_as_vec[i].as_str(), '=');
        let value = remove_char(last.as_str(), '"');
        Some(value)
    } else {
        None
    }
}

/// Puts `line` in place of the first line that contains `name`, or at the end.
pub(crate) fn replace_or_push(lines: &mut Vec<String>, name: &str, line: String)
    ensures
        final(lines).deep_view() == set_line(old(lines).deep_view(), name@, line@),
{
    let i = find_line(lines, name);
    let ghost before = lines.deep_view();
    if i < lines.len() {
        lines.remove(i);
        lines.insert(i, line);
        assert(lines.deep_view() =~= before.update(i as int, line@));
    } else {
        lines.push(line);
        assert(lines.deep_view() =~= before.push(line@));
    }
}

/// The line `<name>="<url>"`.
fn assignment_line(name: &str, url: &str) -> (r: String)
    ensures
        r@ == assignment(name@, url@),
{
    let mut r = String::from_str(name);
    push_char(&mut r, '=');
    push_char(&mut r, '"');
    r.append(url);
    push_char(&mut r, '"');
    r
}

/// The lines of `/etc/environment` after `Add` with proxy `url`.
pub fn add_proxy_lines(content_as_vec: Vec<String>, url: &str) -> (r: Vec<String>)
    ensures
        r.deep_view() == spec_added(content_as_vec.deep_view(), url@),
{
    let ghost orig = content_as_vec.deep_view();
    let mut lines = content_as_vec;
    let types = ProxyType::iterator();
    let mut t: usize = 0;
    while t < types.len()
        invariant
            types@ == super::all_proxy_types(),
            t <= types.len(),
            lines.deep_view() == with_names_set(
                orig,
                set_names().take(2 * (if t < 3 { t as int } else { 3 })),
                url@,
            ),
        decreases types.len() - t,
    {
        let pt = types[t];
        let name = pt.to_string();
        let upper = to_ascii_uppercase(name.as_str());
        match pt {
            ProxyType::NoProxy => {
                assert(t == 3);
            },
            _ => {
                let ghost names = set_names();
                assert(t < 3);
                assert(names.take(2 * t + 1).drop_last() =~= names.take(2 * t as int));
                assert(names.take(2 * t + 2).drop_last() =~= names.take(2 * t + 1));
                assert(names[2 * t as int] == name@);
                assert(names[2 * t + 1] == upper@);
                let line = assignment_line(name.as_str(), url);
                replace_or_push(&mut lines, name.as_str(), line);
                assert(names.take(2 * t + 1).last() == name@);
                assert(lines.deep_view() == with_names_set(orig, names.take(2 * t + 1), url@));
                let line = assignment_line(upper.as_str(), url);
                replace_or_push(&mut lines, upper.as_str(), line);
                assert(names.take(2 * t + 2).last() == upper@);
                assert(lines.deep_view() == with_names_set(orig, names.take(2 * t + 2), url@));
            },
        }
        t = t + 1;
    }
    assert(set_names().take(6) =~= set_names());
    lines
}

/// Whether a line mentions a proxy variable in any letter case.
fn line_mentions_proxy(line: &str) -> (r: bool)
    ensures
        r == mentions_proxy(line@),
{
    let low = to_lowercase(line);
    let types = ProxyType::iterator();
    let mut t: usize = 0;
    while t < types.len()
        invariant
            types@ == super::all_proxy_types(),
            t <= types.len(),
            low@ == lowercase_of(line@),
            forall|w: Seq<char>|
                is_ascii_text(w) && #[trigger] contains(line@, w) ==> contains(low@, ascii_lower(w)),
            forall|k: int| 0 <= k < t ==> !contains(low@, #[trigger] proxy_name(types@[k])),
        decreases types.len() - t,
    {
        let name = types[t].to_string();
        if str_contains(low.as_str(), name.as_str()) {
            return true;
        }
        t = t + 1;
    }
    assert(!contains(low@, proxy_name(types@[0])));
    assert(!contains(low@, proxy_name(types@[1])));
    assert(!contains(low@, proxy_name(types@[2])));
    assert(!contains(low@, proxy_name(types@[3])));
    assert(!holds_name_any_case(line@)) by {
        if holds_name_any_case(line@) {
            let w = choose|w: Seq<char>|
                #[trigger] contains(line@, w) && is_ascii_text(w) && is_proxy_name(ascii_lower(w));
            assert(contains(low@, ascii_lower(w)));
        }
    }
    false
}

/// The lines of `/etc/environment` after `Remove`: those that mention no proxy variable.
pub fn remove_proxy_lines(content_as_vec: &Vec<String>) -> (r: Vec<String>)
    ensures
        r.deep_view() == spec_removed(content_as_vec.deep_view()),
{
    let ghost dv = content_as_vec.deep_view();
    let mut out: Vec<String> = Vec::new();
    let mut i: usize = 0;
    while i < content_as_vec.len()
        invariant
            i <= content_as_vec.len(),
            dv == content_as_vec.deep_view(),
            out.deep_view() == spec_removed(dv.take(i as int)),
        decreases content_as_vec.len() - i,
    {
        assert(dv.take(i + 1).drop_last() =~= dv.take(i as int));
        if !line_mentions_proxy(content_as_vec[i].as_str()) {
            let ghost before = out.deep_view();
            out.push(content_as_vec[i].clone());
            assert(out.deep_view() =~= before.push(dv[i as int]));
        }
        i = i + 1;
    }
    assert(dv.take(dv.len() as int) =~= dv);
    out
}

/// The lines joined by `\n`.
pub fn join_lines_exec(lines: &Vec<String>) -> (r: String)
    ensures
        r@ == join_lines(lines.deep_view()),
{
    let ghost dv = lines.deep_view();
    let mut r = String::new();
    let mut i: usize = 0;
    while i < lines.len()
        invariant
            i <= lines.len(),
            dv == lines.deep_view(),
            r@ == join_lines(dv.take(i as int)),
        decreases lines.len() - i,
    {
        assert(dv.take(i + 1).drop_last() =~= dv.take(i as int));
        if i > 0 {
            push_char(&mut r, '\n');
        }
        r.append(lines[i].as_str());
        i = i + 1;
        assert(i == 1 ==> dv.take(i as int) =~= seq![dv[0]]);
    }
    assert(dv.take(dv.len() as int) =~= dv);
    r
}

/// The lines of a text, as `str::lines` splits them.
pub fn split_lines(content: &str) -> (r: Vec<String>)
    ensures
        r.deep_view() == lines_of(content@),
{
    let v = chars_of(content);
    let mut done: Vec<String> = Vec::new();
    let mut cur: Vec<char> = Vec::new();
    let mut i: usize = 0;
    while i < v.len()
        invariant
            i <= v.len(),
            v@ == content@,
            line_scan(v@.take(i as int)) == (done.deep_view(), cur@),
        decreases v.len() - i,
    {
        assert(v@.take(i + 1).drop_last() =~= v@.take(i as int));
        if v[i] == '\n' {
            let n = cur.len();
            if n > 0 && cur[n - 1] == '\r' {
                cur.pop();
            }
            let line = string_from_chars(&cur);
            let ghost before = done.deep_view();
            done.push(line);
            assert(done.deep_view() =~= before.push(line@));
            cur = Vec::new();
        } else {
            cur.push(v[i]);
        }
        i = i + 1;
    }
    assert(v@.take(v.len() as int) =~= v@);
    if cur.len() > 0 {
        let line = string_from_chars(&cur);
        let ghost before = done.deep_view();
        done.push(line);
        assert(done.deep_view() =~= before.push(line@));
    }
    done
}

/// What a command does to `/etc/environment`, given the lines of the file (none when it cannot
/// be read): `Add` and `Remove` give the content to write, `Show` the proxy to report.
pub fn manage_proxy(subcommand: &Commands, content_as_vec: Vec<String>) -> (r: EnvironmentAction)
    ensures
        r@ == spec_manage_proxy(*subcommand, content_as_vec.deep_view()),
{
    match subcommand {
        Commands::Add { proxy_url } => {
            let lines = add_proxy_lines(content_as_vec, proxy_url.as_str());
            EnvironmentAction::Write(join_lines_exec(&lines))
        },
        Commands::Show => EnvironmentAction::Report(get_configuration(&content_as_vec)),
        Commands::Remove => {
            let lines = remove_proxy_lines(&content_as_vec);
            EnvironmentAction::Write(join_lines_exec(&lines))
        },
    }
}

} // verus!

verus! {

// ----------------------------------------------------------------------------------------
// Laws
// ----------------------------------------------------------------------------------------

/// `c` does not occur in `s`.
pub open spec fn has_no(s: Seq<char>, c: char) -> bool {
    forall|i: int| 0 <= i < s.len() ==> s[i] != c
}

/// An occurrence of a pattern without `x` in `a + [x] + b` lies in `a` or in `b`.
pub(crate) proof fn lemma_no_straddle(a: Seq<char>, x: char, b: Seq<char>, p: Seq<char>)
    requires
        has_no(p, x),
        contains(a + seq![x] + b, p),
    ensures
        contains(a, p) || contains(b, p),
{
    let s = a + seq![x] + b;
    let i = choose|i: int| occurs_at(s, p, i);
    assert(s.subrange(i, i + p.len()) == p);
    if i + p.len() <= a.len() {
        assert(a.subrange(i, i + p.len()) =~= s.subrange(i, i + p.len()));
        assert(occurs_at(a, p, i));
    } else if i > a.len() {
        let j = i - a.len() - 1;
        assert(b.subrange(j, j + p.len()) =~= s.subrange(i, i + p.len()));
        assert(occurs_at(b, p, j));
    } else {
        assert(p[a.len() - i] == s[a.len() as int]);
    }
}

/// No nonempty pattern occurs in the empty string.
proof fn lemma_empty_contains_nothing(p: Seq<char>)
    requires
        p.len() > 0,
    ensures
        !contains(Seq::<char>::empty(), p),
{
}

/// The names of the proxy variables hold neither `=` nor `"`.
proof fn lemma_names_plain(k: int)
    requires
        0 <= k < 6,
    ensures
        has_no(set_names()[k], '='),
        has_no(set_names()[k], '"'),
        set_names()[k].len() > 0,
{
}

/// Which of the six set names occur in one another: none, but each in itself.
proof fn lemma_names_distinct(k: int, m: int)
    requires
        0 <= k < 6,
        0 <= m < 6,
        k != m,
    ensures
        !contains(set_names()[k], set_names()[m]),
{
    let n = set_names();
    assert(n[0] =~= seq!['h', 't', 't', 'p', '_', 'p', 'r', 'o', 'x', 'y']);
    assert(n[1] =~= seq!['H', 'T', 'T', 'P', '_', 'P', 'R', 'O', 'X', 'Y']);
    assert(n[2] =~= seq!['h', 't', 't', 'p', 's', '_', 'p', 'r', 'o', 'x', 'y']);
    assert(n[3] =~= seq!['H', 'T', 'T', 'P', 'S', '_', 'P', 'R', 'O', 'X', 'Y']);
    assert(n[4] =~= seq!['f', 't', 'p', '_', 'p', 'r', 'o', 'x', 'y']);
    assert(n[5] =~= seq!['F', 'T', 'P', '_', 'P', 'R', 'O', 'X', 'Y']);
}

/// A URL that holds none of the variable names that `Add` sets.
pub open spec fn names_free(url: Seq<char>) -> bool {
    forall|k: int| 0 <= k < 6 ==> !contains(url, #[trigger] set_names()[k])
}

/// A URL that the names and the value cannot be confused with: it holds no `=`, no `"`, and
/// none of the variable names that `Add` sets.
pub open spec fn plain_url(url: Seq<char>) -> bool {
    &&& has_no(url, '=')
    &&& has_no(url, '"')
    &&& names_free(url)
}

/// The assignment line of one set name holds no other set name.
proof fn lemma_assignment_excludes(k: int, m: int, url: Seq<char>)
    requires
        0 <= k < 6,
        0 <= m < 6,
        k != m,
        names_free(url),
    ensures
        !contains(assignment(set_names()[k], url), set_names()[m]),
{
    let n = set_names()[k];
    let p = set_names()[m];
    lemma_names_plain(m);
    lemma_names_distinct(k, m);
    lemma_empty_contains_nothing(p);
    assert(!contains(url, p));
    let tail = seq!['"'] + url + seq!['"'];
    assert(assignment(n, url) =~= n + seq!['='] + tail);
    assert(tail =~= Seq::<char>::empty() + seq!['"'] + (url + seq!['"']));
    assert(url + seq!['"'] =~= url + seq!['"'] + Seq::<char>::empty());
    if contains(assignment(n, url), p) {
        lemma_no_straddle(n, '=', tail, p);
        lemma_no_straddle(Seq::<char>::empty(), '"', url + seq!['"'], p);
        lemma_no_straddle(url, '"', Seq::<char>::empty(), p);
    }
}

/// An assignment line holds its own name.
proof fn lemma_assignment_holds_name(name: Seq<char>, url: Seq<char>)
    ensures
        contains(assignment(name, url), name),
{
    assert(assignment(name, url).subrange(0, name.len() as int) =~= name);
    assert(occurs_at(assignment(name, url), name, 0));
}

/// The first line holding the name of index `k` is its assignment line.
pub open spec fn holds_assignment(lines: Seq<Seq<char>>, k: int, url: Seq<char>) -> bool {
    let i = first_with(lines, set_names()[k]);
    i < lines.len() && lines[i] == assignment(set_names()[k], url)
}

/// Setting a name puts its assignment line first among the lines that hold it.
proof fn lemma_set_line_holds(lines: Seq<Seq<char>>, k: int, url: Seq<char>)
    requires
        0 <= k < 6,
    ensures
        holds_assignment(set_line(lines, set_names()[k], assignment(set_names()[k], url)), k, url),
{
    let name = set_names()[k];
    let line = assignment(name, url);
    let out = set_line(lines, name, line);
    lemma_first_with_facts(lines, name);
    lemma_assignment_holds_name(name, url);
    let i = first_with(lines, name);
    assert forall|j: int| 0 <= j < i implies !contains(#[trigger] out[j], name) by {
        assert(out[j] == lines[j]);
    }
    lemma_first_with(out, name, i);
}

/// Setting another name keeps the assignment line of `k` first among the lines holding its
/// name.
proof fn lemma_set_line_keeps(lines: Seq<Seq<char>>, k: int, m: int, url: Seq<char>)
    requires
        0 <= k < 6,
        0 <= m < 6,
        k != m,
        names_free(url),
        holds_assignment(lines, k, url),
    ensures
        holds_assignment(set_line(lines, set_names()[m], assignment(set_names()[m], url)), k, url),
{
    let name = set_names()[k];
    let other = set_names()[m];
    let line = assignment(other, url);
    let out = set_line(lines, other, line);
    let i = first_with(lines, name);
    let j = first_with(lines, other);
    lemma_first_with_facts(lines, name);
    lemma_first_with_facts(lines, other);
    lemma_assignment_excludes(k, m, url);
    lemma_assignment_excludes(m, k, url);
    assert(j != i);
    assert forall|q: int| 0 <= q < i implies !contains(#[trigger] out[q], name) by {
        if q == j {
            assert(out[q] == line);
        } else {
            assert(out[q] == lines[q]);
        }
    }
    assert(out[i] == lines[i]);
    lemma_first_with(out, name, i);
}

/// After setting all names, the first line holding `http_proxy` is its assignment line.
proof fn lemma_added_holds_http(lines: Seq<Seq<char>>, url: Seq<char>)
    requires
        names_free(url),
    ensures
        holds_assignment(spec_added(lines, url), 0, url),
{
    lemma_prefix_holds(lines, url, 6, 0);
    assert(set_names().take(6) =~= set_names());
}

/// What follows the last `c` of `a + [c] + b`, when `b` holds no `c`, is `b`.
proof fn lemma_after_last_tail(a: Seq<char>, c: char, b: Seq<char>)
    requires
        has_no(b, c),
    ensures
        after_last(a + seq![c] + b, c) == b,
    decreases b.len(),
{
    if b.len() == 0 {
        assert(a + seq![c] + b =~= a.push(c));
        assert((a + seq![c] + b).drop_last() =~= a);
    } else {
        assert((a + seq![c] + b).drop_last() =~= a + seq![c] + b.drop_last());
        lemma_after_last_tail(a, c, b.drop_last());
        assert(after_last(a + seq![c] + b, c) =~= b.drop_last().push(b.last()));
    }
}

/// Taking out `c` from a string without `c`, then with a `c` at each end.
proof fn lemma_without_quotes(url: Seq<char>, c: char)
    requires
        has_no(url, c),
    ensures
        without_char(seq![c] + url + seq![c], c) == url,
{
    lemma_without_absent(url, c);
    assert((seq![c] + url + seq![c]).drop_last() =~= seq![c] + url);
    lemma_without_prefix(url, c);
}

/// Taking out `c` leaves a string without `c` as it is.
proof fn lemma_without_absent(s: Seq<char>, c: char)
    requires
        has_no(s, c),
    ensures
        without_char(s, c) == s,
    decreases s.len(),
{
    if s.len() > 0 {
        lemma_without_absent(s.drop_last(), c);
        assert(s.drop_last().push(s.last()) =~= s);
    }
}

/// Taking out `c` from `[c] + s` is taking it out from `s`.
proof fn lemma_without_prefix(s: Seq<char>, c: char)
    ensures
        without_char(seq![c] + s, c) == without_char(s, c),
    decreases s.len(),
{
    if s.len() == 0 {
        assert(seq![c] + s =~= seq![c]);
        assert(seq![c].drop_last() =~= Seq::<char>::empty());
        assert(s =~= Seq::<char>::empty());
        assert(without_char(seq![c], c) == without_char(Seq::<char>::empty(), c));
    } else {
        assert((seq![c] + s).drop_last() =~= seq![c] + s.drop_last());
        assert((seq![c] + s).last() == s.last());
        lemma_without_prefix(s.drop_last(), c);
    }
}

/// Setting a proxy and then asking for it gives it back: after `Add` with a URL that holds no
/// `=`, no `"` and none of the variable names, the proxy in use is that URL.
pub proof fn law_show_after_add(lines: Seq<Seq<char>>, url: Seq<char>)
    requires
        plain_url(url),
    ensures
        spec_get_configuration(spec_added(lines, url)) == Some(url),
{
    lemma_added_holds_http(lines, url);
    let out = spec_added(lines, url);
    let name = set_names()[0];
    assert(name == proxy_name(ProxyType::Http));
    let line = assignment(name, url);
    assert(line =~= name + seq!['='] + (seq!['"'] + url + seq!['"']));
    assert forall|i: int| 0 <= i < (seq!['"'] + url + seq!['"']).len() implies (seq!['"'] + url
        + seq!['"'])[i] != '=' by {
        if 0 < i < url.len() + 1 {
            assert((seq!['"'] + url + seq!['"'])[i] == url[i - 1]);
        }
    }
    lemma_after_last_tail(name, '=', seq!['"'] + url + seq!['"']);
    lemma_without_quotes(url, '"');
}

/// Lines that survive being written and read back: none holds a line break, none but the
/// last ends with `\r`, and the last is not empty.
pub open spec fn writable_lines(ls: Seq<Seq<char>>) -> bool {
    &&& forall|i: int| 0 <= i < ls.len() ==> has_no(#[trigger] ls[i], '\n')
    &&& forall|i: int| 0 <= i < ls.len() - 1 ==> strip_cr(#[trigger] ls[i]) == ls[i]
    &&& ls.len() > 0 ==> ls.last().len() > 0
}

/// Reading on through text without a line break only extends the current line.
proof fn lemma_scan_append(s: Seq<char>, t: Seq<char>)
    requires
        has_no(t, '\n'),
    ensures
        line_scan(s + t) == (line_scan(s).0, line_scan(s).1 + t),
    decreases t.len(),
{
    if t.len() == 0 {
        assert(s + t =~= s);
        assert(line_scan(s).1 + t =~= line_scan(s).1);
    } else {
        assert((s + t).drop_last() =~= s + t.drop_last());
        assert((s + t).last() == t.last());
        lemma_scan_append(s, t.drop_last());
        assert(line_scan(s).1 + t =~= (line_scan(s).1 + t.drop_last()).push(t.last()));
    }
}

/// Reading the joined lines leaves all but the last as ended lines and the last as the
/// current line.
proof fn lemma_scan_join(ls: Seq<Seq<char>>)
    requires
        ls.len() > 0,
        forall|i: int| 0 <= i < ls.len() ==> has_no(#[trigger] ls[i], '\n'),
        forall|i: int| 0 <= i < ls.len() - 1 ==> strip_cr(#[trigger] ls[i]) == ls[i],
    ensures
        line_scan(join_lines(ls)) == (ls.drop_last(), ls.last()),
    decreases ls.len(),
{
    if ls.len() == 1 {
        lemma_scan_append(Seq::<char>::empty(), ls[0]);
        assert(Seq::<char>::empty() + ls[0] =~= ls[0]);
        assert(ls.drop_last() =~= Seq::<Seq<char>>::empty());
    } else {
        let init = ls.drop_last();
        assert forall|i: int| 0 <= i < init.len() implies has_no(#[trigger] init[i], '\n') by {
            assert(init[i] == ls[i]);
        }
        assert forall|i: int| 0 <= i < init.len() - 1 implies strip_cr(#[trigger] init[i])
            == init[i] by {
            assert(init[i] == ls[i]);
        }
        lemma_scan_join(init);
        let j = join_lines(init) + seq!['\n'];
        assert(j.drop_last() =~= join_lines(init));
        assert(init.drop_last().push(strip_cr(init.last())) =~= init);
        lemma_scan_append(j, ls.last());
        assert(line_scan(Seq::<char>::empty()).1 + Seq::<char>::empty() =~= Seq::<char>::empty());
        assert(line_scan(j).1 =~= Seq::<char>::empty());
        assert(line_scan(j).1 + ls.last() =~= ls.last());
    }
}

/// Writing lines to a file and reading them back gives the same lines, for lines that hold
/// no line break, none but the last ending with `\r` and the last not empty.
pub proof fn law_lines_roundtrip(ls: Seq<Seq<char>>)
    requires
        writable_lines(ls),
    ensures
        lines_of(join_lines(ls)) == ls,
{
    if ls.len() > 0 {
        lemma_scan_join(ls);
        assert(ls.drop_last().push(ls.last()) =~= ls);
    } else {
        assert(join_lines(ls) =~= Seq::<char>::empty());
    }
}

/// A line is kept by `Remove` exactly when it mentions no proxy variable, and the kept lines
/// keep their order.
proof fn lemma_removed_members(ls: Seq<Seq<char>>)
    ensures
        forall|i: int| 0 <= i < spec_removed(ls).len() ==> !mentions_proxy(#[trigger] spec_removed(ls)[i]),
        forall|i: int| 0 <= i < spec_removed(ls).len() ==> ls.contains(#[trigger] spec_removed(ls)[i]),
        spec_removed(ls).len() <= ls.len(),
    decreases ls.len(),
{
    if ls.len() > 0 {
        lemma_removed_members(ls.drop_last());
        let r = spec_removed(ls);
        let p = spec_removed(ls.drop_last());
        assert forall|i: int| 0 <= i < r.len() implies ls.contains(#[trigger] r[i]) by {
            if i < p.len() {
                assert(r[i] == p[i]);
                let k = choose|k: int| 0 <= k < ls.drop_last().len() && ls.drop_last()[k] == p[i];
                assert(ls[k] == p[i]);
            } else {
                assert(r[i] == ls.last());
                assert(ls[ls.len() - 1] == ls.last());
            }
        }
        assert forall|i: int| 0 <= i < r.len() implies !mentions_proxy(#[trigger] r[i]) by {
            if i < p.len() {
                assert(r[i] == p[i]);
            }
        }
    }
}

/// After `Remove`, no line mentions a proxy variable, every line kept was already there, and
/// every line that mentions no proxy variable is kept.
pub proof fn law_removed_has_no_proxy(ls: Seq<Seq<char>>)
    ensures
        forall|i: int| 0 <= i < spec_removed(ls).len() ==> !mentions_proxy(#[trigger] spec_removed(ls)[i]),
        forall|i: int| 0 <= i < spec_removed(ls).len() ==> ls.contains(#[trigger] spec_removed(ls)[i]),
        forall|l: Seq<char>| ls.contains(l) && !mentions_proxy(l) ==> #[trigger] spec_removed(ls).contains(l),
{
    lemma_removed_members(ls);
    lemma_removed_keeps(ls);
}

/// `Remove` keeps every line that mentions no proxy variable.
proof fn lemma_removed_keeps(ls: Seq<Seq<char>>)
    ensures
        forall|l: Seq<char>| ls.contains(l) && !mentions_proxy(l) ==> #[trigger] spec_removed(ls).contains(l),
    decreases ls.len(),
{
    if ls.len() > 0 {
        let init = ls.drop_last();
        lemma_removed_keeps(init);
        let r = spec_removed(ls);
        let p = spec_removed(init);
        assert forall|l: Seq<char>| ls.contains(l) && !mentions_proxy(l) implies #[trigger] r.contains(l) by {
            let k = choose|k: int| 0 <= k < ls.len() && ls[k] == l;
            if k < ls.len() - 1 {
                assert(init[k] == l);
                assert(p.contains(l));
                let j = choose|j: int| 0 <= j < p.len() && p[j] == l;
                assert(r[j] == l);
            } else {
                assert(ls.last() == l);
                assert(r[r.len() - 1] == l);
            }
        }
    }
}

/// Removing keeps lines that mention no proxy variable as they are.
proof fn lemma_removed_identity(ls: Seq<Seq<char>>)
    requires
        forall|i: int| 0 <= i < ls.len() ==> !mentions_proxy(#[trigger] ls[i]),
    ensures
        spec_removed(ls) == ls,
    decreases ls.len(),
{
    if ls.len() > 0 {
        assert forall|i: int| 0 <= i < ls.drop_last().len() implies !mentions_proxy(
            #[trigger] ls.drop_last()[i],
        ) by {
            assert(ls.drop_last()[i] == ls[i]);
        }
        lemma_removed_identity(ls.drop_last());
        assert(ls[ls.len() - 1] == ls.last());
        assert(ls.drop_last().push(ls.last()) =~= ls);
    }
}

/// Removing the proxy twice is removing it once.
pub proof fn law_remove_idempotent(ls: Seq<Seq<char>>)
    ensures
        spec_removed(spec_removed(ls)) == spec_removed(ls),
{
    lemma_removed_members(ls);
    lemma_removed_identity(spec_removed(ls));
}

/// After setting the first `m` names, the first line holding any of them is its assignment
/// line.
proof fn lemma_prefix_holds(lines: Seq<Seq<char>>, url: Seq<char>, m: int, k: int)
    requires
        names_free(url),
        0 <= k < m <= 6,
    ensures
        holds_assignment(with_names_set(lines, set_names().take(m), url), k, url),
    decreases m,
{
    let n = set_names();
    assert(n.take(m).drop_last() =~= n.take(m - 1));
    assert(n.take(m).last() == n[m - 1]);
    let before = with_names_set(lines, n.take(m - 1), url);
    assert(with_names_set(lines, n.take(m), url) == set_line(
        before,
        n[m - 1],
        assignment(n[m - 1], url),
    ));
    if k == m - 1 {
        lemma_set_line_holds(before, k, url);
    } else {
        lemma_prefix_holds(lines, url, m - 1, k);
        lemma_set_line_keeps(with_names_set(lines, n.take(m - 1), url), k, m - 1, url);
    }
}

/// Setting a name whose assignment line already comes first changes nothing.
proof fn lemma_set_line_stable(lines: Seq<Seq<char>>, k: int, url: Seq<char>)
    requires
        0 <= k < 6,
        holds_assignment(lines, k, url),
    ensures
        set_line(lines, set_names()[k], assignment(set_names()[k], url)) == lines,
{
    let i = first_with(lines, set_names()[k]);
    lemma_first_with_facts(lines, set_names()[k]);
    assert(lines[i] == assignment(set_names()[k], url));
    assert(lines.update(i, lines[i]) =~= lines);
}

/// Setting the first `m` names again on lines where all six are set changes nothing.
proof fn lemma_reset_stable(lines: Seq<Seq<char>>, url: Seq<char>, m: int)
    requires
        names_free(url),
        0 <= m <= 6,
        forall|k: int| 0 <= k < 6 ==> holds_assignment(lines, k, url),
    ensures
        with_names_set(lines, set_names().take(m), url) == lines,
    decreases m,
{
    let n = set_names();
    if m == 0 {
        assert(n.take(0) =~= Seq::<Seq<char>>::empty());
    } else {
        assert(n.take(m).drop_last() =~= n.take(m - 1));
        assert(n.take(m).last() == n[m - 1]);
        lemma_reset_stable(lines, url, m - 1);
        lemma_set_line_stable(lines, m - 1, url);
    }
}

/// Setting the same proxy twice is setting it once, for a URL that holds none of the variable
/// names.
pub proof fn law_add_idempotent(lines: Seq<Seq<char>>, url: Seq<char>)
    requires
        names_free(url),
    ensures
        spec_added(spec_added(lines, url), url) == spec_added(lines, url),
{
    let a = spec_added(lines, url);
    assert(set_names().take(6) =~= set_names());
    assert forall|k: int| 0 <= k < 6 implies holds_assignment(a, k, url) by {
        lemma_prefix_holds(lines, url, 6, k);
    }
    lemma_reset_stable(a, url, 6);
}

/// Lines that a file keeps as they are: no line break, no final `\r`, and a last line that
/// is not empty.
pub open spec fn clean_lines(ls: Seq<Seq<char>>) -> bool {
    &&& forall|i: int| 0 <= i < ls.len() ==> has_no(#[trigger] ls[i], '\n')
    &&& forall|i: int| 0 <= i < ls.len() ==> strip_cr(#[trigger] ls[i]) == ls[i]
    &&& ls.len() > 0 ==> ls.last().len() > 0
}

/// Setting one name keeps lines clean.
proof fn lemma_set_line_clean(lines: Seq<Seq<char>>, name: Seq<char>, url: Seq<char>)
    requires
        clean_lines(lines),
        has_no(name, '\n'),
        has_no(url, '\n'),
    ensures
        clean_lines(set_line(lines, name, assignment(name, url))),
{
    let line = assignment(name, url);
    assert(line.last() == '"');
    assert forall|i: int| 0 <= i < line.len() implies line[i] != '\n' by {
        if i < name.len() {
            assert(line[i] == name[i]);
        } else if name.len() + 1 < i < name.len() + 2 + url.len() {
            assert(line[i] == url[i - name.len() - 2]);
        }
    }
    let out = set_line(lines, name, line);
    let j = first_with(lines, name);
    lemma_first_with_facts(lines, name);
    assert(strip_cr(line) == line);
    if j < lines.len() {
        assert(out == lines.update(j, line));
        assert forall|i: int| 0 <= i < out.len() implies has_no(#[trigger] out[i], '\n')
            && strip_cr(out[i]) == out[i] by {
            if i != j {
                assert(out[i] == lines[i]);
            }
        }
        assert(out.last() == lines.last() || out.last() == line);
    } else {
        assert(out == lines.push(line));
        assert forall|i: int| 0 <= i < out.len() implies has_no(#[trigger] out[i], '\n')
            && strip_cr(out[i]) == out[i] by {
            if i < lines.len() {
                assert(out[i] == lines[i]);
            }
        }
    }
}

/// `Add` keeps lines clean.
proof fn lemma_added_clean(lines: Seq<Seq<char>>, url: Seq<char>, m: int)
    requires
        clean_lines(lines),
        has_no(url, '\n'),
        0 <= m <= 6,
    ensures
        clean_lines(with_names_set(lines, set_names().take(m), url)),
    decreases m,
{
    let n = set_names();
    if m == 0 {
        assert(n.take(0) =~= Seq::<Seq<char>>::empty());
    } else {
        assert(n.take(m).drop_last() =~= n.take(m - 1));
        assert(n.take(m).last() == n[m - 1]);
        lemma_added_clean(lines, url, m - 1);
        lemma_names_plain(m - 1);
        assert(has_no(n[m - 1], '\n')) by {
            assert(n[0] =~= seq!['h', 't', 't', 'p', '_', 'p', 'r', 'o', 'x', 'y']);
            assert(n[1] =~= seq!['H', 'T', 'T', 'P', '_', 'P', 'R', 'O', 'X', 'Y']);
            assert(n[2] =~= seq!['h', 't', 't', 'p', 's', '_', 'p', 'r', 'o', 'x', 'y']);
            assert(n[3] =~= seq!['H', 'T', 'T', 'P', 'S', '_', 'P', 'R', 'O', 'X', 'Y']);
            assert(n[4] =~= seq!['f', 't', 'p', '_', 'p', 'r', 'o', 'x', 'y']);
            assert(n[5] =~= seq!['F', 'T', 'P', '_', 'P', 'R', 'O', 'X', 'Y']);
        }
        lemma_set_line_clean(with_names_set(lines, n.take(m - 1), url), n[m - 1], url);
    }
}

/// No line holds a line break.
pub open spec fn no_breaks(ls: Seq<Seq<char>>) -> bool {
    forall|i: int| 0 <= i < ls.len() ==> has_no(#[trigger] ls[i], '\n')
}

/// Reading a text leaves lines without line breaks, and a current line without one.
proof fn lemma_scan_no_breaks(s: Seq<char>)
    ensures
        no_breaks(line_scan(s).0),
        has_no(line_scan(s).1, '\n'),
    decreases s.len(),
{
    if s.len() > 0 {
        lemma_scan_no_breaks(s.drop_last());
        let (done, cur) = line_scan(s.drop_last());
        if s.last() == '\n' {
            assert(has_no(strip_cr(cur), '\n')) by {
                if cur.len() > 0 && cur.last() == '\r' {
                    assert forall|i: int| 0 <= i < cur.drop_last().len() implies cur.drop_last()[i]
                        != '\n' by {
                        assert(cur.drop_last()[i] == cur[i]);
                    }
                }
            }
            assert forall|i: int| 0 <= i < done.push(strip_cr(cur)).len() implies has_no(
                #[trigger] done.push(strip_cr(cur))[i],
                '\n',
            ) by {
                if i < done.len() {
                    assert(done.push(strip_cr(cur))[i] == done[i]);
                }
            }
        } else {
            assert forall|i: int| 0 <= i < cur.push(s.last()).len() implies cur.push(s.last())[i]
                != '\n' by {
                if i < cur.len() {
                    assert(cur.push(s.last())[i] == cur[i]);
                }
            }
        }
    }
}

/// The lines of a text hold no line break.
proof fn lemma_lines_of_no_breaks(s: Seq<char>)
    ensures
        no_breaks(lines_of(s)),
{
    lemma_scan_no_breaks(s);
    let (done, cur) = line_scan(s);
    if cur.len() > 0 {
        assert forall|i: int| 0 <= i < done.push(cur).len() implies has_no(
            #[trigger] done.push(cur)[i],
            '\n',
        ) by {
            if i < done.len() {
                assert(done.push(cur)[i] == done[i]);
            }
        }
    }
}

/// Reading joined lines without line breaks: every line but the last ends up ended (without
/// a final `\r`), and the last is the current line.
proof fn lemma_scan_join_lines(ls: Seq<Seq<char>>)
    requires
        ls.len() > 0,
        no_breaks(ls),
    ensures
        line_scan(join_lines(ls)) == (
            ls.drop_last().map_values(|l: Seq<char>| strip_cr(l)),
            ls.last(),
        ),
    decreases ls.len(),
{
    if ls.len() == 1 {
        lemma_scan_append(Seq::<char>::empty(), ls[0]);
        assert(Seq::<char>::empty() + ls[0] =~= ls[0]);
        assert(ls.drop_last().map_values(|l: Seq<char>| strip_cr(l)) =~= Seq::<
            Seq<char>,
        >::empty());
    } else {
        let init = ls.drop_last();
        assert forall|i: int| 0 <= i < init.len() implies has_no(#[trigger] init[i], '\n') by {
            assert(init[i] == ls[i]);
        }
        lemma_scan_join_lines(init);
        let j = join_lines(init) + seq!['\n'];
        assert(j.drop_last() =~= join_lines(init));
        assert(init.drop_last().map_values(|l: Seq<char>| strip_cr(l)).push(strip_cr(init.last()))
            =~= init.map_values(|l: Seq<char>| strip_cr(l)));
        lemma_scan_append(j, ls.last());
        assert(line_scan(j).1 =~= Seq::<char>::empty());
        assert(line_scan(j).1 + ls.last() =~= ls.last());
    }
}

/// A line without its final `\r` holds only what the line holds.
proof fn lemma_strip_cr_contains(l: Seq<char>, p: Seq<char>)
    requires
        contains(strip_cr(l), p),
    ensures
        contains(l, p),
{
    if l.len() > 0 && l.last() == '\r' {
        let i = choose|i: int| occurs_at(strip_cr(l), p, i);
        assert(l.subrange(i, i + p.len()) =~= strip_cr(l).subrange(i, i + p.len()));
        assert(occurs_at(l, p, i));
    }
}

/// Setting one name keeps the lines free of line breaks.
proof fn lemma_set_line_no_breaks(lines: Seq<Seq<char>>, name: Seq<char>, url: Seq<char>)
    requires
        no_breaks(lines),
        has_no(name, '\n'),
        has_no(url, '\n'),
    ensures
        no_breaks(set_line(lines, name, assignment(name, url))),
{
    let line = assignment(name, url);
    assert forall|i: int| 0 <= i < line.len() implies line[i] != '\n' by {
        if i < name.len() {
            assert(line[i] == name[i]);
        } else if name.len() + 1 < i < name.len() + 2 + url.len() {
            assert(line[i] == url[i - name.len() - 2]);
        }
    }
    let out = set_line(lines, name, line);
    lemma_first_with_facts(lines, name);
    assert forall|i: int| 0 <= i < out.len() implies has_no(#[trigger] out[i], '\n') by {
        if i < lines.len() && out[i] != line {
            assert(out[i] == lines[i]);
        }
    }
}

/// `Add` keeps the lines free of line breaks.
proof fn lemma_added_no_breaks(lines: Seq<Seq<char>>, url: Seq<char>, m: int)
    requires
        no_breaks(lines),
        has_no(url, '\n'),
        0 <= m <= 6,
    ensures
        no_breaks(with_names_set(lines, set_names().take(m), url)),
    decreases m,
{
    let n = set_names();
    if m == 0 {
        assert(n.take(0) =~= Seq::<Seq<char>>::empty());
    } else {
        assert(n.take(m).drop_last() =~= n.take(m - 1));
        assert(n.take(m).last() == n[m - 1]);
        lemma_added_no_breaks(lines, url, m - 1);
        assert(has_no(n[m - 1], '\n')) by {
            assert(n[0] =~= seq!['h', 't', 't', 'p', '_', 'p', 'r', 'o', 'x', 'y']);
            assert(n[1] =~= seq!['H', 'T', 'T', 'P', '_', 'P', 'R', 'O', 'X', 'Y']);
            assert(n[2] =~= seq!['h', 't', 't', 'p', 's', '_', 'p', 'r', 'o', 'x', 'y']);
            assert(n[3] =~= seq!['H', 'T', 'T', 'P', 'S', '_', 'P', 'R', 'O', 'X', 'Y']);
            assert(n[4] =~= seq!['f', 't', 'p', '_', 'p', 'r', 'o', 'x', 'y']);
            assert(n[5] =~= seq!['F', 'T', 'P', '_', 'P', 'R', 'O', 'X', 'Y']);
        }
        lemma_set_line_no_breaks(with_names_set(lines, n.take(m - 1), url), n[m - 1], url);
    }
}

/// Setting a proxy, writing `/etc/environment` and reading it back reports that proxy: for
/// any text of the file and a URL without line break, `=`, `"` or variable name, the proxy in
/// use in the text written by `Add` is the URL.
pub proof fn law_show_after_add_through_file(text: Seq<char>, url: Seq<char>)
    requires
        plain_url(url),
        has_no(url, '\n'),
    ensures
        spec_get_configuration(lines_of(join_lines(spec_added(lines_of(text), url)))) == Some(url),
{
    let lines = lines_of(text);
    let a = spec_added(lines, url);
    lemma_lines_of_no_breaks(text);
    lemma_added_no_breaks(lines, url, 6);
    assert(set_names().take(6) =~= set_names());
    law_show_after_add(lines, url);
    lemma_added_holds_http(lines, url);
    let http = proxy_name(ProxyType::Http);
    assert(set_names()[0] == http);
    lemma_first_with_facts(a, http);
    let i = first_with(a, http);
    let line = assignment(http, url);
    assert(a[i] == line);
    assert(line.last() == '"');
    assert(strip_cr(line) == line);
    lemma_scan_join_lines(a);
    let init = a.drop_last().map_values(|l: Seq<char>| strip_cr(l));
    let r = lines_of(join_lines(a));
    assert(r.len() >= a.len() - 1);
    assert(i < r.len() && r[i] == line) by {
        if i < a.len() - 1 {
            assert(init[i] == strip_cr(a[i]));
            if a.last().len() > 0 {
                assert(r[i] == init[i]);
            }
        } else {
            assert(a.last() == line);
            assert(r == init.push(a.last()));
        }
    }
    assert forall|k: int| 0 <= k < i implies !contains(#[trigger] r[k], http) by {
        assert(k < a.len() - 1);
        assert(init[k] == strip_cr(a[k]));
        assert(r[k] == init[k]) by {
            if a.last().len() > 0 {
                assert(r == init.push(a.last()));
            }
        }
        if contains(r[k], http) {
            lemma_strip_cr_contains(a[k], http);
        }
    }
    lemma_first_with(r, http, i);
}

/// Setting the same proxy twice through the file is setting it once: after `Add`, writing
/// `/etc/environment`, reading it back and adding the same proxy again writes the same text,
/// for a file whose lines end without `\r` and whose last line is not empty, and a URL
/// without line break or variable name.
pub proof fn law_add_idempotent_through_file(text: Seq<char>, url: Seq<char>)
    requires
        clean_lines(lines_of(text)),
        names_free(url),
        has_no(url, '\n'),
    ensures
        join_lines(spec_added(lines_of(join_lines(spec_added(lines_of(text), url))), url))
            == join_lines(spec_added(lines_of(text), url)),
{
    let a = spec_added(lines_of(text), url);
    lemma_added_clean(lines_of(text), url, 6);
    assert(set_names().take(6) =~= set_names());
    law_lines_roundtrip(a);
    law_add_idempotent(lines_of(text), url);
}

/// A line holding the name of a proxy variable, written in some mix of ASCII letter cases,
/// mentions a proxy variable.
proof fn lemma_any_case_mentions(l: Seq<char>, w: Seq<char>)
    requires
        contains(l, w),
        is_ascii_text(w),
        is_proxy_name(ascii_lower(w)),
    ensures
        mentions_proxy(l),
{
    assert(holds_name_any_case(l));
}

/// Reading joined lines back, when no line holds `p`, gives lines that do not hold it either.
proof fn lemma_reread_without(ls: Seq<Seq<char>>, p: Seq<char>)
    requires
        no_breaks(ls),
        forall|i: int| 0 <= i < ls.len() ==> !contains(#[trigger] ls[i], p),
    ensures
        forall|j: int|
            0 <= j < lines_of(join_lines(ls)).len() ==> !contains(
                #[trigger] lines_of(join_lines(ls))[j],
                p,
            ),
{
    let r = lines_of(join_lines(ls));
    if ls.len() == 0 {
        assert(join_lines(ls) =~= Seq::<char>::empty());
        assert(r.len() == 0);
    } else {
        lemma_scan_join_lines(ls);
        let init = ls.drop_last().map_values(|l: Seq<char>| strip_cr(l));
        assert forall|j: int| 0 <= j < r.len() implies !contains(#[trigger] r[j], p) by {
            if j < ls.len() - 1 {
                assert(r[j] == init[j]) by {
                    if ls.last().len() > 0 {
                        assert(r == init.push(ls.last()));
                    }
                }
                assert(init[j] == strip_cr(ls[j]));
                if contains(r[j], p) {
                    lemma_strip_cr_contains(ls[j], p);
                }
            } else {
                assert(r == init.push(ls.last()));
                assert(r[j] == ls[ls.len() - 1]);
            }
        }
    }
}

/// The names of the proxy variables, and their upper-case forms, are ASCII text whose ASCII
/// lower-case form is the name.
proof fn lemma_name_forms(p: ProxyType)
    ensures
        is_ascii_text(proxy_name(p)),
        ascii_lower(proxy_name(p)) == proxy_name(p),
        is_ascii_text(ascii_upper(proxy_name(p))),
        ascii_lower(ascii_upper(proxy_name(p))) == proxy_name(p),
{
    let n = proxy_name(p);
    let u = ascii_upper(n);
    assert(ascii_lower(n) =~= n);
    assert(ascii_lower(u) =~= n);
}

/// Removing the proxy, writing `/etc/environment` and reading it back reports no proxy, for
/// any text of the file.
pub proof fn law_show_after_remove_through_file(text: Seq<char>)
    ensures
        spec_get_configuration(lines_of(join_lines(spec_removed(lines_of(text))))) is None,
{
    let dv = lines_of(text);
    let kept = spec_removed(dv);
    let http = proxy_name(ProxyType::Http);
    lemma_lines_of_no_breaks(text);
    lemma_removed_members(dv);
    lemma_name_forms(ProxyType::Http);
    assert forall|i: int| 0 <= i < kept.len() implies !contains(#[trigger] kept[i], http)
        && has_no(kept[i], '\n') by {
        let k = choose|k: int| 0 <= k < dv.len() && dv[k] == kept[i];
        assert(has_no(dv[k], '\n'));
        assert(!mentions_proxy(kept[i]));
        if contains(kept[i], http) {
            lemma_any_case_mentions(kept[i], http);
        }
    }
    lemma_reread_without(kept, http);
    let r = lines_of(join_lines(kept));
    lemma_first_with(r, http, r.len() as int);
}

/// Replacing a line that mentions a proxy variable by another that does leaves the same
/// lines after `Remove`.
proof fn lemma_removed_update(ls: Seq<Seq<char>>, i: int, x: Seq<char>)
    requires
        0 <= i < ls.len(),
        mentions_proxy(ls[i]),
        mentions_proxy(x),
    ensures
        spec_removed(ls.update(i, x)) == spec_removed(ls),
    decreases ls.len(),
{
    let u = ls.update(i, x);
    if i == ls.len() - 1 {
        assert(u.drop_last() =~= ls.drop_last());
        assert(u.last() == x);
    } else {
        assert(u.drop_last() =~= ls.drop_last().update(i, x));
        assert(u.last() == ls.last());
        lemma_removed_update(ls.drop_last(), i, x);
    }
}

/// A line holding one of the names that `Add` sets mentions a proxy variable.
proof fn lemma_set_name_mentions(l: Seq<char>, k: int)
    requires
        0 <= k < 6,
        contains(l, set_names()[k]),
    ensures
        mentions_proxy(l),
{
    lemma_name_forms(ProxyType::Http);
    lemma_name_forms(ProxyType::Https);
    lemma_name_forms(ProxyType::Ftp);
    lemma_any_case_mentions(l, set_names()[k]);
}

/// Setting the first `m` names leaves the same lines after `Remove`.
proof fn lemma_added_removed(lines: Seq<Seq<char>>, url: Seq<char>, m: int)
    requires
        0 <= m <= 6,
    ensures
        spec_removed(with_names_set(lines, set_names().take(m), url)) == spec_removed(lines),
    decreases m,
{
    let n = set_names();
    if m == 0 {
        assert(n.take(0) =~= Seq::<Seq<char>>::empty());
    } else {
        assert(n.take(m).drop_last() =~= n.take(m - 1));
        assert(n.take(m).last() == n[m - 1]);
        lemma_added_removed(lines, url, m - 1);
        let before = with_names_set(lines, n.take(m - 1), url);
        let name = n[m - 1];
        let line = assignment(name, url);
        lemma_assignment_holds_name(name, url);
        lemma_set_name_mentions(line, m - 1);
        lemma_first_with_facts(before, name);
        let j = first_with(before, name);
        let out = set_line(before, name, line);
        if j < before.len() {
            lemma_set_name_mentions(before[j], m - 1);
            lemma_removed_update(before, j, line);
        } else {
            assert(out.drop_last() =~= before);
        }
    }
}

/// `Remove` undoes `Add`: removing the proxy after setting it gives the lines that removing
/// it from the start gives.
pub proof fn law_remove_undoes_add(lines: Seq<Seq<char>>, url: Seq<char>)
    ensures
        spec_removed(spec_added(lines, url)) == spec_removed(lines),
{
    lemma_added_removed(lines, url, 6);
    assert(set_names().take(6) =~= set_names());
}

/// A line holding the name of a proxy variable, in lower or in upper case, mentions it.
pub proof fn law_names_mention_proxy(p: ProxyType)
    ensures
        mentions_proxy(proxy_name(p)),
        mentions_proxy(ascii_upper(proxy_name(p))),
{
    lemma_name_forms(p);
    let n = proxy_name(p);
    assert(n.subrange(0, n.len() as int) =~= n);
    assert(occurs_at(n, n, 0));
    let u = ascii_upper(n);
    assert(u.subrange(0, u.len() as int) =~= u);
    assert(occurs_at(u, u, 0));
    lemma_any_case_mentions(n, n);
    lemma_any_case_mentions(u, u);
}

/// Reading text without `c` (other than a line break) leaves lines without `c`, and a
/// current line without it.
proof fn lemma_scan_without(s: Seq<char>, c: char)
    requires
        has_no(s, c),
        c != '\n',
    ensures
        forall|i: int| 0 <= i < line_scan(s).0.len() ==> has_no(#[trigger] line_scan(s).0[i], c),
        has_no(line_scan(s).1, c),
    decreases s.len(),
{
    if s.len() > 0 {
        assert(has_no(s.drop_last(), c)) by {
            assert forall|i: int| 0 <= i < s.drop_last().len() implies s.drop_last()[i] != c by {
                assert(s.drop_last()[i] == s[i]);
            }
        }
        lemma_scan_without(s.drop_last(), c);
        let (done, cur) = line_scan(s.drop_last());
        if s.last() == '\n' {
            assert(has_no(strip_cr(cur), c)) by {
                if cur.len() > 0 && cur.last() == '\r' {
                    assert forall|i: int| 0 <= i < cur.drop_last().len() implies cur.drop_last()[i]
                        != c by {
                        assert(cur.drop_last()[i] == cur[i]);
                    }
                }
            }
            assert forall|i: int| 0 <= i < done.push(strip_cr(cur)).len() implies has_no(
                #[trigger] done.push(strip_cr(cur))[i],
                c,
            ) by {
                if i < done.len() {
                    assert(done.push(strip_cr(cur))[i] == done[i]);
                }
            }
        } else {
            assert(s[s.len() - 1] == s.last());
            assert forall|i: int| 0 <= i < cur.push(s.last()).len() implies cur.push(s.last())[i]
                != c by {
                if i < cur.len() {
                    assert(cur.push(s.last())[i] == cur[i]);
                }
            }
        }
    }
}

/// The lines of a text without `c` (other than a line break) hold no `c`.
proof fn lemma_lines_of_without(s: Seq<char>, c: char)
    requires
        has_no(s, c),
        c != '\n',
    ensures
        forall|i: int| 0 <= i < lines_of(s).len() ==> has_no(#[trigger] lines_of(s)[i], c),
{
    lemma_scan_without(s, c);
    let (done, cur) = line_scan(s);
    if cur.len() > 0 {
        assert forall|i: int| 0 <= i < done.push(cur).len() implies has_no(
            #[trigger] done.push(cur)[i],
            c,
        ) by {
            if i < done.len() {
                assert(done.push(cur)[i] == done[i]);
            }
        }
    }
}

/// Setting the first `m` names (at least one) on lines without a final `\r` or line break,
/// none of which holds `http_proxy`, gives clean lines: the first name's line is added at the
/// end, and the lines stay clean from there on.
proof fn lemma_added_clean_from(lines: Seq<Seq<char>>, url: Seq<char>, m: int)
    requires
        1 <= m <= 6,
        no_breaks(lines),
        forall|i: int| 0 <= i < lines.len() ==> strip_cr(#[trigger] lines[i]) == lines[i],
        forall|i: int| 0 <= i < lines.len() ==> !contains(#[trigger] lines[i], set_names()[0]),
        has_no(url, '\n'),
    ensures
        clean_lines(with_names_set(lines, set_names().take(m), url)),
    decreases m,
{
    let n = set_names();
    assert(n.take(m).drop_last() =~= n.take(m - 1));
    assert(n.take(m).last() == n[m - 1]);
    assert(has_no(n[m - 1], '\n')) by {
        assert(n[0] =~= seq!['h', 't', 't', 'p', '_', 'p', 'r', 'o', 'x', 'y']);
        assert(n[1] =~= seq!['H', 'T', 'T', 'P', '_', 'P', 'R', 'O', 'X', 'Y']);
        assert(n[2] =~= seq!['h', 't', 't', 'p', 's', '_', 'p', 'r', 'o', 'x', 'y']);
        assert(n[3] =~= seq!['H', 'T', 'T', 'P', 'S', '_', 'P', 'R', 'O', 'X', 'Y']);
        assert(n[4] =~= seq!['f', 't', 'p', '_', 'p', 'r', 'o', 'x', 'y']);
        assert(n[5] =~= seq!['F', 'T', 'P', '_', 'P', 'R', 'O', 'X', 'Y']);
    }
    if m == 1 {
        assert(n.take(0) =~= Seq::<Seq<char>>::empty());
        let line = assignment(n[0], url);
        lemma_first_with_facts(lines, n[0]);
        if first_with(lines, n[0]) < lines.len() {
            assert(contains(lines[first_with(lines, n[0])], n[0]));
        }
        assert(first_with(lines, n[0]) == lines.len());
        let out = lines.push(line);
        assert(with_names_set(lines, n.take(0), url) == lines);
        assert(set_line(lines, n[0], line) == out);
        assert(n.take(1).last() == n[0]);
        assert(with_names_set(lines, n.take(1), url) == out);
        assert(line.last() == '"');
        assert forall|i: int| 0 <= i < line.len() implies line[i] != '\n' by {
            if i < n[0].len() {
                assert(line[i] == n[0][i]);
            } else if n[0].len() + 1 < i < n[0].len() + 2 + url.len() {
                assert(line[i] == url[i - n[0].len() - 2]);
            }
        }
        assert forall|i: int| 0 <= i < out.len() implies has_no(#[trigger] out[i], '\n')
            && strip_cr(out[i]) == out[i] by {
            if i < lines.len() {
                assert(out[i] == lines[i]);
            }
        }
    } else {
        lemma_added_clean_from(lines, url, m - 1);
        lemma_set_line_clean(with_names_set(lines, n.take(m - 1), url), n[m - 1], url);
    }
}

/// `Remove` undoes `Add` through the file: after `Add` wrote `/etc/environment`, `Remove` on
/// the file read back writes the original lines joined by line breaks, for a file without
/// `\r` whose lines mention no proxy variable, and a URL without line break.
pub proof fn law_remove_undoes_add_through_file(text: Seq<char>, url: Seq<char>)
    requires
        has_no(text, '\r'),
        forall|i: int| 0 <= i < lines_of(text).len() ==> !mentions_proxy(#[trigger] lines_of(text)[i]),
        has_no(url, '\n'),
    ensures
        join_lines(spec_removed(lines_of(join_lines(spec_added(lines_of(text), url)))))
            == join_lines(lines_of(text)),
{
    let lines = lines_of(text);
    lemma_lines_of_no_breaks(text);
    lemma_lines_of_without(text, '\r');
    assert forall|i: int| 0 <= i < lines.len() implies strip_cr(#[trigger] lines[i]) == lines[i]
        && !contains(lines[i], set_names()[0]) by {
        assert(has_no(lines[i], '\r'));
        if lines[i].len() > 0 {
            assert(lines[i][lines[i].len() - 1] != '\r');
        }
        if contains(lines[i], set_names()[0]) {
            lemma_set_name_mentions(lines[i], 0);
        }
    }
    lemma_added_clean_from(lines, url, 6);
    assert(set_names().take(6) =~= set_names());
    let a = spec_added(lines, url);
    law_lines_roundtrip(a);
    law_remove_undoes_add(lines, url);
    lemma_removed_identity(lines);
}

/// Setting one name leaves in place a line that holds none of the set names.
proof fn lemma_set_line_keeps_line(lines: Seq<Seq<char>>, k: int, url: Seq<char>, i: int)
    requires
        0 <= k < 6,
        0 <= i < lines.len(),
        !contains(lines[i], set_names()[k]),
    ensures
        i < set_line(lines, set_names()[k], assignment(set_names()[k], url)).len(),
        set_line(lines, set_names()[k], assignment(set_names()[k], url))[i] == lines[i],
{
    lemma_first_with_facts(lines, set_names()[k]);
}

/// `Add` keeps in place every line that holds none of the names it sets.
proof fn lemma_added_keeps_line(lines: Seq<Seq<char>>, url: Seq<char>, i: int, m: int)
    requires
        0 <= i < lines.len(),
        0 <= m <= 6,
        forall|k: int| 0 <= k < 6 ==> !contains(lines[i], #[trigger] set_names()[k]),
    ensures
        i < with_names_set(lines, set_names().take(m), url).len(),
        with_names_set(lines, set_names().take(m), url)[i] == lines[i],
    decreases m,
{
    let n = set_names();
    if m == 0 {
        assert(n.take(0) =~= Seq::<Seq<char>>::empty());
    } else {
        assert(n.take(m).drop_last() =~= n.take(m - 1));
        assert(n.take(m).last() == n[m - 1]);
        lemma_added_keeps_line(lines, url, i, m - 1);
        let before = with_names_set(lines, n.take(m - 1), url);
        assert(!contains(lines[i], n[m - 1]));
        lemma_set_line_keeps_line(before, m - 1, url, i);
    }
}

/// `Add` leaves every line that holds none of the variable names it sets where it was.
pub proof fn law_add_keeps_other_lines(lines: Seq<Seq<char>>, url: Seq<char>, i: int)
    requires
        0 <= i < lines.len(),
        forall|k: int| 0 <= k < 6 ==> !contains(lines[i], #[trigger] set_names()[k]),
    ensures
        i < spec_added(lines, url).len(),
        spec_added(lines, url)[i] == lines[i],
{
    lemma_added_keeps_line(lines, url, i, 6);
    assert(set_names().take(6) =~= set_names());
}

/// What `Add` writes is the lines with the proxy set, joined by line breaks: every line that
/// holds none of the variable names it sets stays, in its place, in the written lines.
pub proof fn law_add_writes_other_lines_in_place(lines: Seq<Seq<char>>, url: String, i: int)
    requires
        0 <= i < lines.len(),
        forall|k: int| 0 <= k < 6 ==> !contains(lines[i], #[trigger] set_names()[k]),
    ensures
        spec_manage_proxy(Commands::Add { proxy_url: url }, lines) == EnvironmentActionView::Write(
            join_lines(spec_added(lines, url@)),
        ),
        i < spec_added(lines, url@).len(),
        spec_added(lines, url@)[i] == lines[i],
{
    law_add_keeps_other_lines(lines, url@, i);
}

/// `Show` reports a proxy exactly when some line holds `http_proxy`, and then the value of the
/// first such line (what follows its last `=`, without double quotes).
pub proof fn law_show_reports_first_http_line(lines: Seq<Seq<char>>)
    ensures
        spec_manage_proxy(Commands::Show, lines) is Report,
        (spec_manage_proxy(Commands::Show, lines)->Report_0 is Some) <==> exists|i: int|
            0 <= i < lines.len() && contains(#[trigger] lines[i], proxy_name(ProxyType::Http)),
        forall|v: Seq<char>|
            spec_manage_proxy(Commands::Show, lines) == EnvironmentActionView::Report(Some(v))
                ==> exists|i: int|
                0 <= i < lines.len() && contains(#[trigger] lines[i], proxy_name(ProxyType::Http))
                    && (forall|j: int|
                    0 <= j < i ==> !contains(#[trigger] lines[j], proxy_name(ProxyType::Http)))
                    && v == proxy_value(lines[i]),
{
    let http = proxy_name(ProxyType::Http);
    lemma_first_with_facts(lines, http);
    let i = first_with(lines, http);
    if i < lines.len() {
        assert(contains(lines[i], http));
    } else {
        assert forall|k: int| 0 <= k < lines.len() implies !contains(#[trigger] lines[k], http) by {}
    }
}

/// Setting a proxy with `Add`, then reading the written file back with `Show`, reports that
/// proxy, for any text of `/etc/environment` and a URL without line break, `=`, `"` or
/// variable name.
pub proof fn law_show_after_add_through_manage(text: Seq<char>, url: String)
    requires
        plain_url(url@),
        has_no(url@, '\n'),
    ensures
        spec_manage_proxy(Commands::Add { proxy_url: url }, lines_of(text)) matches EnvironmentActionView::Write(t)
            && spec_manage_proxy(Commands::Show, lines_of(t)) == EnvironmentActionView::Report(
            Some(url@),
        ),
{
    law_show_after_add_through_file(text, url@);
}

/// Removing the proxy with `Remove`, then reading the written file back with `Show`,
/// reports none, for any text of `/etc/environment`.
pub proof fn law_show_after_remove_through_manage(text: Seq<char>)
    ensures
        spec_manage_proxy(Commands::Remove, lines_of(text)) matches EnvironmentActionView::Write(t)
            && spec_manage_proxy(Commands::Show, lines_of(t)) == EnvironmentActionView::Report(None),
{
    law_show_after_remove_through_file(text);
}

} // verus!
