//! VSCode's proxy: the `http.proxy` member of the user settings, a JSON document handled with
//! the `json` crate.
use vstd::prelude::*;

use json::JsonValue;

use super::args::Commands;

verus! {

// ----------------------------------------------------------------------------------------
// The JSON document, as the `json` crate holds it
// ----------------------------------------------------------------------------------------

#[verifier::external_type_specification]
#[verifier::external_body]
pub struct ExJsonValue(json::JsonValue);

#[verifier::external_type_specification]
#[verifier::external_body]
pub struct ExJsonError(json::Error);

/// A JSON document in mathematical form, as the `json` crate holds it: an object keeps its
/// members in order, `null` ones included.
pub enum JsonDoc {
    Null,
    Bool(bool),
    /// A number: its category (negative, positive, or not a number), mantissa and decimal
    /// exponent.
    Number(u8, u64, i16),
    Str(Seq<char>),
    Array(Seq<JsonDoc>),
    Object(Seq<(Seq<char>, JsonDoc)>),
}

/// The document that a `JsonValue` holds.
pub uninterp spec fn json_view(v: JsonValue) -> JsonDoc;

/// What `json::parse` reads from a text; `None` when the text is refused.
pub uninterp spec fn json_parsed(s: Seq<char>) -> Option<JsonDoc>;

/// The text by which `JsonValue`'s `Display` shows a value.
pub uninterp spec fn json_display(d: JsonDoc) -> Seq<char>;

/// What `JsonValue::pretty` writes of a document, indented by `spaces`.
pub uninterp spec fn json_pretty_text(d: JsonDoc, spaces: u16) -> Seq<char>;

/// The value of the first member named `k`.
pub open spec fn member_of(es: Seq<(Seq<char>, JsonDoc)>, k: Seq<char>) -> Option<JsonDoc>
    decreases es.len(),
{
    if es.len() == 0 {
        None
    } else if es[0].0 == k {
        Some(es[0].1)
    } else {
        member_of(es.drop_first(), k)
    }
}

/// The members after setting `k` to `d`: a member named `k` gets the value where it stands,
/// else the member is added at the end.
pub open spec fn put_member(es: Seq<(Seq<char>, JsonDoc)>, k: Seq<char>, d: JsonDoc) -> Seq<
    (Seq<char>, JsonDoc),
>
    decreases es.len(),
{
    if es.len() == 0 {
        seq![(k, d)]
    } else if es[0].0 == k {
        es.update(0, (k, d))
    } else {
        seq![es[0]] + put_member(es.drop_first(), k, d)
    }
}

/// The members without those named `k`, the others in their order.
pub open spec fn without_member(es: Seq<(Seq<char>, JsonDoc)>, k: Seq<char>) -> Seq<
    (Seq<char>, JsonDoc),
>
    decreases es.len(),
{
    if es.len() == 0 {
        es
    } else if es[0].0 == k {
        without_member(es.drop_first(), k)
    } else {
        seq![es[0]] + without_member(es.drop_first(), k)
    }
}

/// What showing a member gives: nothing for a missing or `null` member, the text of a
/// string, the displayed form of anything else.
pub open spec fn shown_member(m: Option<JsonDoc>) -> Option<Seq<char>> {
    match m {
        None => None,
        Some(JsonDoc::Null) => None,
        Some(JsonDoc::Str(s)) => Some(s),
        Some(d) => Some(json_display(d)),
    }
}

/// Calls `json::parse`.
#[verifier::external_body]
pub(crate) fn parse_json(text: &str) -> (r: Result<JsonValue, json::Error>)
    ensures
        match r {
            Ok(v) => json_parsed(text@) == Some(json_view(v)),
            Err(_) => json_parsed(text@) is None,
        },
{
    json::parse(text)
}

/// Calls `JsonValue::insert` with a string value: on an object the member is set to the
/// string, where it stands or at the end; on anything else an error comes back and nothing
/// changes.
#[verifier::external_body]
fn json_insert_text(v: &mut JsonValue, key: &str, value: &str) -> (r: Result<(), json::Error>)
    ensures
        r is Ok <==> json_view(*old(v)) is Object,
        match json_view(*old(v)) {
            JsonDoc::Object(es) => json_view(*final(v)) == JsonDoc::Object(
                put_member(es, key@, JsonDoc::Str(value@)),
            ),
            _ => *final(v) == *old(v),
        },
{
    v.insert(key, value)
}

/// Calls `JsonValue::remove`: an object loses the member, the others keep their order;
/// anything else is left as it is.
#[verifier::external_body]
fn json_remove(v: &mut JsonValue, key: &str)
    ensures
        match json_view(*old(v)) {
            JsonDoc::Object(es) => json_view(*final(v)) == JsonDoc::Object(without_member(es, key@)),
            _ => *final(v) == *old(v),
        },
{
    v.remove(key);
}

/// Indexes a value by `key` and shows the member (`Display`), unless it is `null` (which is
/// also what indexing gives for a missing member or a value that is not an object).
#[verifier::external_body]
fn json_member_text(v: &JsonValue, key: &str) -> (r: Option<String>)
    ensures
        r.deep_view() == match json_view(*v) {
            JsonDoc::Object(es) => match member_of(es, key@) {
                None => None,
                Some(JsonDoc::Null) => None,
                Some(JsonDoc::Str(s)) => Some(s),
                Some(d) => Some(json_display(d)),
            },
            _ => None,
        },
{
    let member = &v[key];
    if member.is_null() {
        None
    } else {
        Some(member.to_string())
    }
}

/// Calls `JsonValue::pretty`.
#[verifier::external_body]
fn json_pretty(v: &JsonValue, spaces: u16) -> (r: String)
    ensures
        r@ == json_pretty_text(json_view(*v), spaces),
{
    v.pretty(spaces)
}

// ----------------------------------------------------------------------------------------
// The VSCode settings
// ----------------------------------------------------------------------------------------

/// The settings key of the proxy.
pub open spec fn proxy_key() -> Seq<char> {
    "http.proxy"@
}

/// The settings files where VSCode may keep its user settings, under the home directory:
/// that of a native install, then that of a Flatpak install.
pub fn configuration_candidates(home: &str) -> (r: Vec<String>)
    ensures
        r.deep_view() == seq![
            home@ + "/.config/Code/User/settings.json"@,
            home@ + "/.var/app/com.visualstudio.code/config/Code/User/settings.json"@,
        ],
{
    let mut native = String::from_str(home);
    native.append("/.config/Code/User/settings.json");
    let mut flatpak = String::from_str(home);
    flatpak.append("/.var/app/com.visualstudio.code/config/Code/User/settings.json");
    let r = vec![native, flatpak];
    assert(r.deep_view() =~= seq![
        home@ + "/.config/Code/User/settings.json"@,
        home@ + "/.var/app/com.visualstudio.code/config/Code/User/settings.json"@,
    ]);
    r
}

/// The position of the settings file to use: the first candidate that exists, given for each
/// candidate whether it exists; `None` when none does.
pub fn first_existing(exists: &Vec<bool>) -> (r: Option<usize>)
    ensures
        match r {
            Some(i) => i < exists.len() && exists[i as int] && forall|j: int|
                0 <= j < i ==> !exists[j],
            None => forall|j: int| 0 <= j < exists.len() ==> !exists[j],
        },
{
    let mut i: usize = 0;
    while i < exists.len()
        invariant
            i <= exists.len(),
            forall|j: int| 0 <= j < i ==> !exists[j],
        decreases exists.len() - i,
    {
        if exists[i] {
            return Some(i);
        }
        i = i + 1;
    }
    None
}

/// What managing the VSCode proxy amounts to.
pub enum VscodeAction {
    /// Nothing is written; the proxy in use (if any) is reported.
    Report(Option<String>),
    /// The settings are written back as they now are.
    Write(JsonValue),
}

/// The proxy reported for settings.
pub open spec fn shown_proxy(d: JsonDoc) -> Option<Seq<char>> {
    match d {
        JsonDoc::Object(es) => shown_member(member_of(es, proxy_key())),
        _ => None,
    }
}

/// The settings after a command: `Add` sets the proxy key to the URL, `Remove` takes it out
/// (of an object), `Show` changes nothing.
pub open spec fn settings_after(c: Commands, d: JsonDoc) -> JsonDoc {
    match d {
        JsonDoc::Object(es) => match c {
            Commands::Add { proxy_url } => JsonDoc::Object(
                put_member(es, proxy_key(), JsonDoc::Str(proxy_url@)),
            ),
            Commands::Remove => JsonDoc::Object(without_member(es, proxy_key())),
            Commands::Show => d,
        },
        _ => d,
    }
}

/// What a command does to the VSCode settings: `Add` sets `http.proxy` to the URL (refused
/// when the settings are not an object), `Remove` takes it out, `Show` reports it.
pub fn manage_proxy(subcommand: &Commands, content_parsed: JsonValue) -> (r: Result<
    VscodeAction,
    json::Error,
>)
    ensures
        match subcommand {
            Commands::Add { .. } => (r is Ok <==> json_view(content_parsed) is Object),
            _ => r is Ok,
        },
        match r {
            Ok(VscodeAction::Write(v)) => subcommand !is Show && json_view(v) == settings_after(
                *subcommand,
                json_view(content_parsed),
            ),
            Ok(VscodeAction::Report(o)) => subcommand is Show && o.deep_view() == shown_proxy(
                json_view(content_parsed),
            ),
            Err(_) => true,
        },
{
    let mut content_parsed = content_parsed;
    match subcommand {
        Commands::Add { proxy_url } => {
            match json_insert_text(&mut content_parsed, "http.proxy", proxy_url.as_str()) {
                Ok(()) => Ok(VscodeAction::Write(content_parsed)),
                Err(e) => Err(e),
            }
        },
        Commands::Remove => {
            json_remove(&mut content_parsed, "http.proxy");
            Ok(VscodeAction::Write(content_parsed))
        },
        Commands::Show => Ok(VscodeAction::Report(json_member_text(&content_parsed, "http.proxy"))),
    }
}

/// The text written to the settings file: the document pretty-printed with an indent of four
/// spaces.
pub fn settings_text(v: &JsonValue) -> (r: String)
    ensures
        r@ == json_pretty_text(json_view(*v), 4),
{
    json_pretty(v, 4)
}

/// Setting a member puts that value under its name.
proof fn lemma_put_member_get(es: Seq<(Seq<char>, JsonDoc)>, k: Seq<char>, d: JsonDoc, k2: Seq<char>)
    ensures
        member_of(put_member(es, k, d), k2) == (if k2 == k {
            Some(d)
        } else {
            member_of(es, k2)
        }),
    decreases es.len(),
{
    if es.len() > 0 && es[0].0 != k {
        lemma_put_member_get(es.drop_first(), k, d, k2);
        let r = seq![es[0]] + put_member(es.drop_first(), k, d);
        assert(r[0] == es[0]);
        assert(r.drop_first() =~= put_member(es.drop_first(), k, d));
    } else if es.len() > 0 {
        let r = es.update(0, (k, d));
        assert(r[0] == (k, d));
        assert(r.drop_first() =~= es.drop_first());
    } else {
        let r = seq![(k, d)];
        assert(r[0] == (k, d));
        assert(r.drop_first() =~= Seq::<(Seq<char>, JsonDoc)>::empty());
        assert(member_of(r.drop_first(), k2) is None);
    }
}

/// Removing the members named `k` leaves none of that name and the others as they were.
proof fn lemma_without_member_get(es: Seq<(Seq<char>, JsonDoc)>, k: Seq<char>, k2: Seq<char>)
    ensures
        member_of(without_member(es, k), k2) == (if k2 == k {
            None
        } else {
            member_of(es, k2)
        }),
    decreases es.len(),
{
    if es.len() > 0 {
        lemma_without_member_get(es.drop_first(), k, k2);
        if es[0].0 != k {
            let r = seq![es[0]] + without_member(es.drop_first(), k);
            assert(r[0] == es[0]);
            assert(r.drop_first() =~= without_member(es.drop_first(), k));
        }
    }
}

/// After setting a proxy, showing the settings reports it.
pub proof fn law_show_after_add(d: JsonDoc, url: String)
    requires
        d is Object,
    ensures
        shown_proxy(settings_after(Commands::Add { proxy_url: url }, d)) == Some(url@),
{
    lemma_put_member_get(d->Object_0, proxy_key(), JsonDoc::Str(url@), proxy_key());
}

/// Setting the proxy leaves every other member as it was.
pub proof fn law_add_keeps_other_members(es: Seq<(Seq<char>, JsonDoc)>, url: String, k: Seq<char>)
    requires
        k != proxy_key(),
    ensures
        member_of(settings_after(Commands::Add { proxy_url: url }, JsonDoc::Object(es))->Object_0, k)
            == member_of(es, k),
{
    lemma_put_member_get(es, proxy_key(), JsonDoc::Str(url@), k);
}

/// After removing the proxy, showing the settings reports none.
pub proof fn law_show_after_remove(d: JsonDoc)
    ensures
        shown_proxy(settings_after(Commands::Remove, d)) is None,
{
    if d is Object {
        lemma_without_member_get(d->Object_0, proxy_key(), proxy_key());
    }
}

/// Removing the proxy leaves every other member as it was.
pub proof fn law_remove_keeps_other_members(es: Seq<(Seq<char>, JsonDoc)>, k: Seq<char>)
    requires
        k != proxy_key(),
    ensures
        member_of(settings_after(Commands::Remove, JsonDoc::Object(es))->Object_0, k) == member_of(
            es,
            k,
        ),
{
    lemma_without_member_get(es, proxy_key(), k);
}

/// `Add` keeps every other member at its place: a member not named `http.proxy` stands at
/// the same position after `Add`, and the members are as many as before, or one more when
/// there was no proxy member.
pub proof fn law_add_keeps_member_positions(es: Seq<(Seq<char>, JsonDoc)>, url: String, i: int)
    requires
        0 <= i < es.len(),
        es[i].0 != proxy_key(),
    ensures
        settings_after(Commands::Add { proxy_url: url }, JsonDoc::Object(es))->Object_0.len() == es.len()
            + (if member_of(es, proxy_key()) is Some {
            0int
        } else {
            1int
        }),
        settings_after(Commands::Add { proxy_url: url }, JsonDoc::Object(es))->Object_0[i] == es[i],
{
    lemma_put_member_shape(es, proxy_key(), JsonDoc::Str(url@), i);
}

proof fn lemma_put_member_shape(es: Seq<(Seq<char>, JsonDoc)>, k: Seq<char>, d: JsonDoc, i: int)
    requires
        0 <= i < es.len(),
        es[i].0 != k,
    ensures
        put_member(es, k, d).len() == es.len() + (if member_of(es, k) is Some {
            0int
        } else {
            1int
        }),
        put_member(es, k, d)[i] == es[i],
    decreases es.len(),
{
    lemma_put_member_len(es, k, d);
    if es[0].0 == k {
        assert(es.update(0, (k, d))[i] == es[i]);
    } else if i == 0 {
        assert((seq![es[0]] + put_member(es.drop_first(), k, d))[0] == es[0]);
    } else {
        lemma_put_member_shape(es.drop_first(), k, d, i - 1);
        assert(es.drop_first()[i - 1] == es[i]);
        assert((seq![es[0]] + put_member(es.drop_first(), k, d))[i] == put_member(
            es.drop_first(),
            k,
            d,
        )[i - 1]);
    }
}

proof fn lemma_put_member_len(es: Seq<(Seq<char>, JsonDoc)>, k: Seq<char>, d: JsonDoc)
    ensures
        put_member(es, k, d).len() == es.len() + (if member_of(es, k) is Some {
            0int
        } else {
            1int
        }),
    decreases es.len(),
{
    if es.len() > 0 && es[0].0 != k {
        lemma_put_member_len(es.drop_first(), k, d);
    }
}

} // verus!
