//! Proxy variables, service selection and log verbosity.
pub mod apt;
pub mod args;
pub mod docker;
pub mod environment;
pub mod text;
pub mod vscode;

use vstd::prelude::*;

use self::args::Cli;
use self::text::{ascii_lower, contains, is_ascii_text};
use self::vscode::{json_parsed, json_view, parse_json};

verus! {

/// The proxy variables that the managed services read.
#[derive(Debug, Clone, Copy, PartialEq, Eq, Structural)]
pub enum ProxyType {
    Http,
    Https,
    Ftp,
    NoProxy,
}

/// The name of a proxy variable, in lower case.
pub open spec fn proxy_name(p: ProxyType) -> Seq<char> {
    match p {
        ProxyType::Http => seq!['h', 't', 't', 'p', '_', 'p', 'r', 'o', 'x', 'y'],
        ProxyType::Https => seq!['h', 't', 't', 'p', 's', '_', 'p', 'r', 'o', 'x', 'y'],
        ProxyType::Ftp => seq!['f', 't', 'p', '_', 'p', 'r', 'o', 'x', 'y'],
        ProxyType::NoProxy => seq!['n', 'o', '_', 'p', 'r', 'o', 'x', 'y'],
    }
}

/// Every proxy variable, in the order in which they are handled.
pub open spec fn all_proxy_types() -> Seq<ProxyType> {
    seq![ProxyType::Http, ProxyType::Https, ProxyType::Ftp, ProxyType::NoProxy]
}

/// The names are ASCII text in lower case, and none contains another: matching a line by
/// the name of one variable never finds another.
pub proof fn law_names_distinct(p: ProxyType, q: ProxyType)
    ensures
        is_ascii_text(proxy_name(p)),
        ascii_lower(proxy_name(p)) == proxy_name(p),
        p != q ==> !contains(proxy_name(q), proxy_name(p)),
{
    assert(ascii_lower(proxy_name(p)) =~= proxy_name(p));
}

impl ProxyType {
    /// Every proxy variable, in the order in which they are handled.
    pub fn iterator() -> (v: Vec<ProxyType>)
        ensures
            v@ == all_proxy_types(),
    {
        let v = vec![ProxyType::Http, ProxyType::Https, ProxyType::Ftp, ProxyType::NoProxy];
        assert(v@ =~= all_proxy_types());
        v
    }

    /// The name of the variable: `http_proxy`, `https_proxy`, `ftp_proxy` or `no_proxy`.
    pub fn to_string(&self) -> (r: String)
        ensures
            r@ == proxy_name(*self),
    {
        match self {
            ProxyType::Http => {
                let r = String::from_str("http_proxy");
                proof {
                    reveal_strlit("http_proxy");
                }
                assert(r@ =~= proxy_name(*self));
                r
            },
            ProxyType::Https => {
                let r = String::from_str("https_proxy");
                proof {
                    reveal_strlit("https_proxy");
                }
                assert(r@ =~= proxy_name(*self));
                r
            },
            ProxyType::Ftp => {
                let r = String::from_str("ftp_proxy");
                proof {
                    reveal_strlit("ftp_proxy");
                }
                assert(r@ =~= proxy_name(*self));
                r
            },
            ProxyType::NoProxy => {
                let r = String::from_str("no_proxy");
                proof {
                    reveal_strlit("no_proxy");
                }
                assert(r@ =~= proxy_name(*self));
                r
            },
        }
    }
}

/// The services whose proxy configuration can be managed.
#[derive(Debug, Clone, Copy, PartialEq, Eq, Structural)]
pub enum Service {
    Apt,
    Docker,
    Environment,
    Vscode,
}

/// The services that a command line selects, in the order in which they are handled:
/// each one whose flag is set, or all of them when `all` is set.
pub open spec fn spec_selected_services(args: Cli) -> Seq<Service> {
    let apt: Seq<Service> = if args.all || args.apt { seq![Service::Apt] } else { seq![] };
    let docker: Seq<Service> = if args.all || args.docker { seq![Service::Docker] } else { seq![] };
    let env: Seq<Service> = if args.all || args.environment {
        seq![Service::Environment]
    } else {
        seq![]
    };
    let vscode: Seq<Service> = if args.all || args.vscode { seq![Service::Vscode] } else { seq![] };
    apt + docker + env + vscode
}

/// The services to act on, in order: apt, docker, `/etc/environment`, VSCode, each when it is
/// selected by its own flag or by `all`.
pub fn selected_services(args: &Cli) -> (r: Vec<Service>)
    ensures
        r@ == spec_selected_services(*args),
{
    let mut r: Vec<Service> = Vec::new();
    if args.all || args.apt {
        r.push(Service::Apt);
    }
    if args.all || args.docker {
        r.push(Service::Docker);
    }
    if args.all || args.environment {
        r.push(Service::Environment);
    }
    if args.all || args.vscode {
        r.push(Service::Vscode);
    }
    assert(r@ =~= spec_selected_services(*args));
    r
}

/// Each flag selects its own service, and `all` selects every one: a service is selected
/// exactly when its flag or `all` is set; none is selected twice, and they come in the order
/// apt, docker, `/etc/environment`, VSCode.
pub proof fn law_each_flag_selects_its_service(args: Cli)
    ensures
        spec_selected_services(args).contains(Service::Apt) <==> (args.all || args.apt),
        spec_selected_services(args).contains(Service::Docker) <==> (args.all || args.docker),
        spec_selected_services(args).contains(Service::Environment) <==> (args.all
            || args.environment),
        spec_selected_services(args).contains(Service::Vscode) <==> (args.all || args.vscode),
        forall|i: int, j: int|
            0 <= i < j < spec_selected_services(args).len() ==> service_rank(
                spec_selected_services(args)[i],
            ) < service_rank(spec_selected_services(args)[j]),
{
    let r = spec_selected_services(args);
    let apt: Seq<Service> = if args.all || args.apt { seq![Service::Apt] } else { seq![] };
    let docker: Seq<Service> = if args.all || args.docker { seq![Service::Docker] } else { seq![] };
    let env: Seq<Service> = if args.all || args.environment {
        seq![Service::Environment]
    } else {
        seq![]
    };
    let vscode: Seq<Service> = if args.all || args.vscode { seq![Service::Vscode] } else { seq![] };
    assert(r == apt + docker + env + vscode);
    assert forall|x: Service| r.contains(x) <==> (apt.contains(x) || docker.contains(x)
        || env.contains(x) || vscode.contains(x)) by {
        if r.contains(x) {
            let i = choose|i: int| 0 <= i < r.len() && r[i] == x;
            if i < apt.len() {
                assert(r[i] == apt[i]);
            } else if i < apt.len() + docker.len() {
                assert(r[i] == docker[i - apt.len()]);
            } else if i < apt.len() + docker.len() + env.len() {
                assert(r[i] == env[i - apt.len() - docker.len()]);
            } else {
                assert(r[i] == vscode[i - apt.len() - docker.len() - env.len()]);
            }
        }
        if apt.contains(x) {
            assert(r[0] == apt[0]);
        }
        if docker.contains(x) {
            assert(r[apt.len() as int] == docker[0]);
        }
        if env.contains(x) {
            assert(r[(apt.len() + docker.len()) as int] == env[0]);
        }
        if vscode.contains(x) {
            assert(r[(apt.len() + docker.len() + env.len()) as int] == vscode[0]);
        }
    }
    assert(apt.contains(Service::Apt) <==> (args.all || args.apt)) by {
        if args.all || args.apt {
            assert(apt[0] == Service::Apt);
        }
    }
    assert(docker.contains(Service::Docker) <==> (args.all || args.docker)) by {
        if args.all || args.docker {
            assert(docker[0] == Service::Docker);
        }
    }
    assert(env.contains(Service::Environment) <==> (args.all || args.environment)) by {
        if args.all || args.environment {
            assert(env[0] == Service::Environment);
        }
    }
    assert(vscode.contains(Service::Vscode) <==> (args.all || args.vscode)) by {
        if args.all || args.vscode {
            assert(vscode[0] == Service::Vscode);
        }
    }
    assert forall|i: int, j: int| 0 <= i < j < r.len() implies service_rank(r[i]) < service_rank(
        r[j],
    ) by {
        let a = apt.len();
        let b = a + docker.len();
        let e = b + env.len();
        assert(i < a ==> r[i] == Service::Apt);
        assert(a <= i < b ==> r[i] == Service::Docker);
        assert(b <= i < e ==> r[i] == Service::Environment);
        assert(e <= i ==> r[i] == Service::Vscode);
        assert(j < a ==> r[j] == Service::Apt);
        assert(a <= j < b ==> r[j] == Service::Docker);
        assert(b <= j < e ==> r[j] == Service::Environment);
        assert(e <= j ==> r[j] == Service::Vscode);
    }
}

/// The place of a service in the order in which services are handled.
pub open spec fn service_rank(s: Service) -> int {
    match s {
        Service::Apt => 0,
        Service::Docker => 1,
        Service::Environment => 2,
        Service::Vscode => 3,
    }
}

/// How much the program logs.
#[derive(Debug, Clone, Copy, PartialEq, Eq, Structural)]
pub enum LogLevel {
    Info,
    Debug,
    Trace,
}

/// The log level for a count of `-v` flags: none gives `Info`, one `Debug`, more `Trace`.
pub fn log_level(verbosity: u8) -> (l: LogLevel)
    ensures
        verbosity == 0 ==> l == LogLevel::Info,
        verbosity == 1 ==> l == LogLevel::Debug,
        verbosity >= 2 ==> l == LogLevel::Trace,
{
    match verbosity {
        0 => LogLevel::Info,
        1 => LogLevel::Debug,
        _ => LogLevel::Trace,
    }
}

/// The JSON document read from a text (a settings file's content); an error when the text is
/// not JSON.
pub fn get_json_parsed(contents: &str) -> (r: Result<json::JsonValue, json::Error>)
    ensures
        match r {
            Ok(v) => json_parsed(contents@) == Some(json_view(v)),
            Err(_) => json_parsed(contents@) is None,
        },
{
    parse_json(contents)
}

} // verus!
