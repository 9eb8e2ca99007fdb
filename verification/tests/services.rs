use change_proxy::libs::args::{Cli, Commands};
use change_proxy::libs::text::{
    last_piece, remove_char, str_contains, to_ascii_uppercase, to_lowercase,
};
use change_proxy::libs::{log_level, selected_services, LogLevel, ProxyType, Service};

fn cli(all: bool, apt: bool, docker: bool, environment: bool, vscode: bool) -> Cli {
    Cli {
        command: Commands::Show,
        verbosity: 0,
        all,
        apt,
        docker,
        environment,
        vscode,
    }
}

#[test]
fn proxy_types_in_order() {
    assert_eq!(
        ProxyType::iterator(),
        vec![ProxyType::Http, ProxyType::Https, ProxyType::Ftp, ProxyType::NoProxy]
    );
    let names: Vec<String> = ProxyType::iterator().iter().map(|p| p.to_string()).collect();
    assert_eq!(names, vec!["http_proxy", "https_proxy", "ftp_proxy", "no_proxy"]);
}

#[test]
fn command_texts() {
    assert_eq!(
        Commands::Add { proxy_url: String::from("http://x:1") }.to_string(),
        "Add (url: http://x:1)"
    );
    assert_eq!(Commands::Remove.to_string(), "Remove");
    assert_eq!(Commands::Show.to_string(), "Show");
}

#[test]
fn all_selects_every_service() {
    assert_eq!(
        selected_services(&cli(true, false, false, false, false)),
        vec![Service::Apt, Service::Docker, Service::Environment, Service::Vscode]
    );
}

#[test]
fn flags_select_their_services() {
    assert_eq!(
        selected_services(&cli(false, false, true, false, true)),
        vec![Service::Docker, Service::Vscode]
    );
    assert_eq!(selected_services(&cli(false, false, false, false, false)), vec![]);
}

#[test]
fn verbosity_levels() {
    assert_eq!(log_level(0), LogLevel::Info);
    assert_eq!(log_level(1), LogLevel::Debug);
    assert_eq!(log_level(2), LogLevel::Trace);
    assert_eq!(log_level(255), LogLevel::Trace);
}

#[test]
fn text_helpers() {
    assert!(str_contains("export http_proxy=x", "http_proxy"));
    assert!(!str_contains("HTTP_PROXY=x", "http_proxy"));
    assert!(str_contains("abc", ""));
    assert!(!str_contains("ab", "abc"));
    assert_eq!(to_ascii_uppercase("http_proxy-é"), "HTTP_PROXY-é");
    assert_eq!(to_lowercase("HTTP_Proxy"), "http_proxy");
    assert_eq!(last_piece("a=b=c", '='), "c");
    assert_eq!(last_piece("abc", '='), "abc");
    assert_eq!(last_piece("a=", '='), "");
    assert_eq!(remove_char("\"u\"", '"'), "u");
}

#[test]
fn proxy_names_are_lower_case_and_distinct() {
    let all = ProxyType::iterator();
    for p in all.iter() {
        let n = p.to_string();
        assert_eq!(n, n.to_lowercase());
        for q in all.iter() {
            if p != q {
                assert!(!q.to_string().contains(&n));
            }
        }
    }
}
