//! Docker's proxy: the systemd drop-in of the docker service reads its environment from
//! `/etc/environment`. The drop-in is an INI file, handled with the `ini` crate.
use vstd::prelude::*;

use ini::Ini;

use super::args::Commands;
use super::environment::spec_get_configuration;
use super::text::{chars_of, string_from_chars};

verus! {

// ----------------------------------------------------------------------------------------
// The INI document, as the `ini` crate holds it
// ----------------------------------------------------------------------------------------

#[verifier::external_type_specification]
#[verifier::external_body]
pub struct ExIni(ini::Ini);

/// What an `Ini` holds, in the order in which it writes it out: its sections (`None` for the
/// general one), each with its key-value pairs.
pub uninterp spec fn ini_contents(i: Ini) -> Seq<(Option<Seq<char>>, Seq<(Seq<char>, Seq<char>)>)>;

/// What `Ini::load_from_str` reads from a text; `None` when it refuses the text.
pub uninterp spec fn ini_parsed(s: Seq<char>) -> Option<
    Seq<(Option<Seq<char>>, Seq<(Seq<char>, Seq<char>)>)>,
>;

/// The text that `Ini::write_to` produces for a content, with the default options; its line
/// separator is the one of the platform the crate is built for (`\n` on Unix), fixed for a
/// build.
pub uninterp spec fn ini_text(c: Seq<(Option<Seq<char>>, Seq<(Seq<char>, Seq<char>)>)>) -> Seq<
    char,
>;

/// The content of a new `Ini`: an empty general section.
pub open spec fn new_contents() -> Seq<(Option<Seq<char>>, Seq<(Seq<char>, Seq<char>)>)> {
    seq![(None::<Seq<char>>, Seq::<(Seq<char>, Seq<char>)>::empty())]
}

/// The position of the first section named `name`; `c.len()` when there is none.
pub open spec fn section_index(
    c: Seq<(Option<Seq<char>>, Seq<(Seq<char>, Seq<char>)>)>,
    name: Option<Seq<char>>,
) -> int
    decreases c.len(),
{
    if c.len() == 0 {
        0
    } else if c[0].0 == name {
        0
    } else {
        1 + section_index(c.drop_first(), name)
    }
}

/// The pairs without those of key `k`.
pub open spec fn without_key(props: Seq<(Seq<char>, Seq<char>)>, k: Seq<char>) -> Seq<
    (Seq<char>, Seq<char>),
>
    decreases props.len(),
{
    if props.len() == 0 {
        props
    } else if props.last().0 == k {
        without_key(props.drop_last(), k)
    } else {
        without_key(props.drop_last(), k).push(props.last())
    }
}

/// The first value of key `k`.
pub open spec fn first_value(props: Seq<(Seq<char>, Seq<char>)>, k: Seq<char>) -> Option<Seq<char>>
    decreases props.len(),
{
    if props.len() == 0 {
        None
    } else if props[0].0 == k {
        Some(props[0].1)
    } else {
        first_value(props.drop_first(), k)
    }
}

/// Setting key `k` of section `s` to `v`: the first section named `s` (made at the end when
/// there is none) loses its pairs of key `k` and gets `(k, v)` last.
pub open spec fn ini_set_model(
    c: Seq<(Option<Seq<char>>, Seq<(Seq<char>, Seq<char>)>)>,
    s: Seq<char>,
    k: Seq<char>,
    v: Seq<char>,
) -> Seq<(Option<Seq<char>>, Seq<(Seq<char>, Seq<char>)>)> {
    let i = section_index(c, Some(s));
    if i < c.len() {
        c.update(i, (c[i].0, without_key(c[i].1, k).push((k, v))))
    } else {
        c.push((Some(s), seq![(k, v)]))
    }
}

/// The first value of key `k` in the first section named `s`.
pub open spec fn ini_get_model(
    c: Seq<(Option<Seq<char>>, Seq<(Seq<char>, Seq<char>)>)>,
    s: Seq<char>,
    k: Seq<char>,
) -> Option<Seq<char>> {
    let i = section_index(c, Some(s));
    if 0 <= i < c.len() {
        first_value(c[i].1, k)
    } else {
        None
    }
}

/// Calls `Ini::new`, which makes a document with an empty general section.
#[verifier::external_body]
fn ini_new() -> (r: Ini)
    ensures
        ini_contents(r) == new_contents(),
{
    Ini::new()
}

/// Calls `Ini::load_from_str`; the refusal (a `ParseError`) becomes `None`. What is read is
/// named by `ini_parsed`.
#[verifier::external_body]
fn ini_load(text: &str) -> (r: Option<Ini>)
    ensures
        match r {
            Some(i) => ini_parsed(text@) == Some(ini_contents(i)),
            None => ini_parsed(text@) is None,
        },
{
    Ini::load_from_str(text).ok()
}

/// Calls `Ini::with_section(Some(section)).set(key, value)`: the first section of that name
/// (made at the end when missing) gets `(key, value)` in place of its pairs of that key, the
/// new pair coming last.
#[verifier::external_body]
fn ini_set(i: &mut Ini, section: &str, key: &str, value: &str)
    ensures
        ini_contents(*final(i)) == ini_set_model(ini_contents(*old(i)), section@, key@, value@),
{
    i.with_section(Some(section)).set(key, value);
}

/// Calls `Ini::get_from(Some(section), key)`: the first value of the key in the first
/// section of that name.
#[verifier::external_body]
fn ini_get(i: &Ini, section: &str, key: &str) -> (r: Option<String>)
    ensures
        r.deep_view() == ini_get_model(ini_contents(*i), section@, key@),
{
    i.get_from(Some(section), key).map(|v| v.to_string())
}

/// Calls `Ini::section(Some(section))` and tells whether there is such a section.
#[verifier::external_body]
fn ini_has_section(i: &Ini, section: &str) -> (r: bool)
    ensures
        r == (section_index(ini_contents(*i), Some(section@)) < ini_contents(*i).len()),
{
    i.section(Some(section)).is_some()
}

/// Calls `Ini::write_to` on a byte buffer (writing to a `Vec<u8>` does not fail) and reads the
/// bytes, which `write_to` writes as UTF-8, back as text. The text is named by `ini_text`.
#[verifier::external_body]
fn ini_write(i: &Ini) -> (r: String)
    ensures
        r@ == ini_text(ini_contents(*i)),
{
    let mut buf: Vec<u8> = Vec::new();
    let _ = i.write_to(&mut buf);
    String::from_utf8_lossy(&buf).into_owned()
}

// ----------------------------------------------------------------------------------------
// The docker drop-in
// ----------------------------------------------------------------------------------------

/// A text without its leading byte order mark, if it has one.
pub open spec fn strip_bom(s: Seq<char>) -> Seq<char> {
    if s.len() > 0 && s[0] == '\u{feff}' {
        s.drop_first()
    } else {
        s
    }
}

/// The drop-in as it is loaded from its text (`None` when the file cannot be read): a new
/// document when there is no text or when the text is refused.
pub open spec fn loaded_contents(text: Option<Seq<char>>) -> Seq<
    (Option<Seq<char>>, Seq<(Seq<char>, Seq<char>)>),
> {
    match text {
        None => new_contents(),
        Some(t) => match ini_parsed(strip_bom(t)) {
            Some(c) => c,
            None => new_contents(),
        },
    }
}

/// Loads the drop-in from its text, as `Ini::load_from_file` does with the file (a leading
/// byte order mark is skipped); a new document when there is no text or it is refused.
pub fn load_unit(text: Option<String>) -> (r: Ini)
    ensures
        ini_contents(r) == loaded_contents(text.deep_view()),
{
    match text {
        None => ini_new(),
        Some(t) => {
            let cs = chars_of(t.as_str());
            let body = if cs.len() > 0 && cs[0] == '\u{feff}' {
                let mut rest: Vec<char> = Vec::new();
                let mut i: usize = 1;
                while i < cs.len()
                    invariant
                        1 <= i <= cs.len(),
                        rest@ == cs@.subrange(1, i as int),
                    decreases cs.len() - i,
                {
                    rest.push(cs[i]);
                    i = i + 1;
                    assert(cs@.subrange(1, i as int) =~= cs@.subrange(1, i - 1).push(
                        cs@[i - 1],
                    ));
                }
                assert(rest@ =~= cs@.drop_first());
                string_from_chars(&rest)
            } else {
                t
            };
            match ini_load(body.as_str()) {
                Some(i) => i,
                None => ini_new(),
            }
        },
    }
}

/// What managing the docker proxy amounts to.
pub enum DockerAction {
    /// Write this drop-in, then set the proxy in `/etc/environment`, reload systemd and
    /// restart docker.
    Configure(String),
    /// Update `/etc/environment`, reload systemd and restart docker.
    Restart,
    /// Report the proxy: whether the drop-in has a `Service` section, its environment file,
    /// and the proxy in use.
    Report { service: bool, environment_file: Option<String>, proxy: Option<String> },
}

/// The mathematical form of a [`DockerAction`].
pub enum DockerActionView {
    Configure(Seq<char>),
    Restart,
    Report { service: bool, environment_file: Option<Seq<char>>, proxy: Option<Seq<char>> },
}

impl View for DockerAction {
    type V = DockerActionView;

    open spec fn view(&self) -> DockerActionView {
        match self {
            DockerAction::Configure(s) => DockerActionView::Configure(s@),
            DockerAction::Restart => DockerActionView::Restart,
            DockerAction::Report { service, environment_file, proxy } => DockerActionView::Report {
                service: *service,
                environment_file: environment_file.deep_view(),
                proxy: proxy.deep_view(),
            },
        }
    }
}

/// What a command does to docker, given the drop-in's text and the lines of
/// `/etc/environment`: `Add` writes the drop-in with `EnvironmentFile=-/etc/environment` in its
/// `Service` section; `Remove` only updates the environment; `Show` reports.
pub open spec fn spec_docker(
    c: Commands,
    unit_text: Option<Seq<char>>,
    env_lines: Seq<Seq<char>>,
) -> DockerActionView {
    let loaded = loaded_contents(unit_text);
    match c {
        Commands::Add { .. } => DockerActionView::Configure(
            ini_text(ini_set_model(loaded, "Service"@, "EnvironmentFile"@, "-/etc/environment"@)),
        ),
        Commands::Remove => DockerActionView::Restart,
        Commands::Show => DockerActionView::Report {
            service: section_index(loaded, Some("Service"@)) < loaded.len(),
            environment_file: ini_get_model(loaded, "Service"@, "EnvironmentFile"@),
            proxy: spec_get_configuration(env_lines),
        },
    }
}

/// What a command does to docker, given the text of its systemd drop-in (`None` when it
/// cannot be read) and the lines of `/etc/environment`.
pub fn manage_proxy(subcommand: &Commands, unit_text: Option<String>, env_lines: &Vec<String>) -> (r:
    DockerAction)
    ensures
        r@ == spec_docker(*subcommand, unit_text.deep_view(), env_lines.deep_view()),
{
    let mut conf = load_unit(unit_text);
    match subcommand {
        Commands::Add { .. } => {
            ini_set(&mut conf, "Service", "EnvironmentFile", "-/etc/environment");
            DockerAction::Configure(ini_write(&conf))
        },
        Commands::Remove => DockerAction::Restart,
        Commands::Show => {
            let service = ini_has_section(&conf, "Service");
            let environment_file = ini_get(&conf, "Service", "EnvironmentFile");
            let proxy = super::environment::get_configuration(env_lines);
            DockerAction::Report { service, environment_file, proxy }
        },
    }
}

// ----------------------------------------------------------------------------------------
// Laws
// ----------------------------------------------------------------------------------------

proof fn lemma_section_index(
    c: Seq<(Option<Seq<char>>, Seq<(Seq<char>, Seq<char>)>)>,
    name: Option<Seq<char>>,
)
    ensures
        0 <= section_index(c, name) <= c.len(),
        forall|j: int| 0 <= j < section_index(c, name) ==> (#[trigger] c[j]).0 != name,
        section_index(c, name) < c.len() ==> c[section_index(c, name)].0 == name,
    decreases c.len(),
{
    if c.len() > 0 && c[0].0 != name {
        lemma_section_index(c.drop_first(), name);
        assert forall|j: int| 0 <= j < section_index(c, name) implies (#[trigger] c[j]).0
            != name by {
            if j > 0 {
                assert(c[j] == c.drop_first()[j - 1]);
            }
        }
    }
}

proof fn lemma_section_index_is(
    c: Seq<(Option<Seq<char>>, Seq<(Seq<char>, Seq<char>)>)>,
    name: Option<Seq<char>>,
    i: int,
)
    requires
        0 <= i <= c.len(),
        forall|j: int| 0 <= j < i ==> (#[trigger] c[j]).0 != name,
        i < c.len() ==> c[i].0 == name,
    ensures
        section_index(c, name) == i,
    decreases i,
{
    if i > 0 {
        assert forall|j: int| 0 <= j < i - 1 implies (#[trigger] c.drop_first()[j]).0 != name by {
            assert(c.drop_first()[j] == c[j + 1]);
        }
        lemma_section_index_is(c.drop_first(), name, i - 1);
    }
}

/// Taking out the pairs of key `k` keeps the first value of every other key, and leaves none
/// of `k`.
proof fn lemma_without_key_first(props: Seq<(Seq<char>, Seq<char>)>, k: Seq<char>, k2: Seq<char>)
    ensures
        first_value(without_key(props, k), k2) == (if k2 == k {
            None
        } else {
            first_value(props, k2)
        }),
    decreases props.len(),
{
    if props.len() > 0 {
        let init = props.drop_last();
        lemma_without_key_first(init, k, k2);
        lemma_first_value_push(without_key(init, k), props.last(), k2);
        lemma_first_value_push(init, props.last(), k2);
        assert(init.push(props.last()) =~= props);
    }
}

/// The first value of a key after a pair is added at the end.
proof fn lemma_first_value_push(props: Seq<(Seq<char>, Seq<char>)>, p: (Seq<char>, Seq<char>), k: Seq<char>)
    ensures
        first_value(props.push(p), k) == (if first_value(props, k) is Some {
            first_value(props, k)
        } else if p.0 == k {
            Some(p.1)
        } else {
            None
        }),
    decreases props.len(),
{
    if props.len() == 0 {
        assert(props.push(p) =~= seq![p]);
        assert(seq![p].drop_first() =~= Seq::<(Seq<char>, Seq<char>)>::empty());
    } else {
        assert(props.push(p).drop_first() =~= props.drop_first().push(p));
        lemma_first_value_push(props.drop_first(), p, k);
    }
}

/// Setting a key and reading it back gives the value set, and every other key of every
/// section keeps its value.
pub proof fn law_ini_get_after_set(
    c: Seq<(Option<Seq<char>>, Seq<(Seq<char>, Seq<char>)>)>,
    s: Seq<char>,
    k: Seq<char>,
    v: Seq<char>,
    s2: Seq<char>,
    k2: Seq<char>,
)
    ensures
        ini_get_model(ini_set_model(c, s, k, v), s, k) == Some(v),
        !(s2 == s && k2 == k) ==> ini_get_model(ini_set_model(c, s, k, v), s2, k2)
            == ini_get_model(c, s2, k2),
{
    let c2 = ini_set_model(c, s, k, v);
    let i = section_index(c, Some(s));
    lemma_section_index(c, Some(s));
    lemma_section_index(c, Some(s2));
    assert forall|j: int| 0 <= j < i implies (#[trigger] c2[j]).0 != Some(s) by {
        assert(c2[j] == c[j]);
    }
    lemma_section_index_is(c2, Some(s), i);
    if i < c.len() {
        lemma_without_key_first(c[i].1, k, k);
        lemma_without_key_first(c[i].1, k, k2);
        lemma_first_value_push(without_key(c[i].1, k), (k, v), k);
        lemma_first_value_push(without_key(c[i].1, k), (k, v), k2);
    } else {
        assert(seq![(k, v)].drop_first() =~= Seq::<(Seq<char>, Seq<char>)>::empty());
        assert(c2[i].1 == seq![(k, v)]);
        assert(first_value(Seq::<(Seq<char>, Seq<char>)>::empty(), k2) is None);
        assert(first_value(seq![(k, v)], k2) == (if k2 == k {
            Some(v)
        } else {
            None::<Seq<char>>
        }));
    }
    if s2 != s {
        let i2 = section_index(c, Some(s2));
        assert forall|j: int| 0 <= j < i2 implies (#[trigger] c2[j]).0 != Some(s2) by {
            if j != i {
                assert(c2[j] == c[j]);
            }
        }
        if i2 < c.len() {
            assert(i2 != i);
            assert(c2[i2] == c[i2]);
            lemma_section_index_is(c2, Some(s2), i2);
        } else {
            assert forall|j: int| 0 <= j < c2.len() implies (#[trigger] c2[j]).0 != Some(s2) by {
                if j < c.len() && j != i {
                    assert(c2[j] == c[j]);
                }
            }
            lemma_section_index_is(c2, Some(s2), c2.len() as int);
        }
    }
}

/// What docker gets depends on the command alone: `Add` writes the drop-in, whose `Service`
/// section then sets `EnvironmentFile=-/etc/environment` while every other setting of the
/// drop-in read keeps its value; `Remove` restarts docker, whatever the drop-in holds; only
/// `Show` reports, and it reports the proxy of `/etc/environment`.
pub proof fn law_docker_action_follows_command(
    c: Commands,
    unit_text: Option<Seq<char>>,
    env_lines: Seq<Seq<char>>,
    s2: Seq<char>,
    k2: Seq<char>,
)
    ensures
        c is Remove ==> spec_docker(c, unit_text, env_lines) == DockerActionView::Restart,
        (c is Show) <==> (spec_docker(c, unit_text, env_lines) is Report),
        c is Show ==> spec_docker(c, unit_text, env_lines)->proxy == spec_get_configuration(
            env_lines,
        ),
        c is Add ==> exists|conf: Seq<(Option<Seq<char>>, Seq<(Seq<char>, Seq<char>)>)>|
            spec_docker(c, unit_text, env_lines) == DockerActionView::Configure(
                #[trigger] ini_text(conf),
            ) && ini_get_model(conf, "Service"@, "EnvironmentFile"@) == Some(
                "-/etc/environment"@,
            ) && (!(s2 == "Service"@ && k2 == "EnvironmentFile"@) ==> ini_get_model(conf, s2, k2)
                == ini_get_model(loaded_contents(unit_text), s2, k2)),
{
    let loaded = loaded_contents(unit_text);
    let conf = ini_set_model(loaded, "Service"@, "EnvironmentFile"@, "-/etc/environment"@);
    law_ini_get_after_set(loaded, "Service"@, "EnvironmentFile"@, "-/etc/environment"@, s2, k2);
    if c is Add {
        assert(spec_docker(c, unit_text, env_lines) == DockerActionView::Configure(ini_text(conf)));
    }
}

} // verus!
