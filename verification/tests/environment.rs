use change_proxy::libs::args::Commands;
use change_proxy::libs::environment::{
    add_proxy_lines, get_configuration, join_lines_exec, manage_proxy, remove_proxy_lines,
    split_lines, EnvironmentAction,
};

fn lines(v: &[&str]) -> Vec<String> {
    v.iter().map(|s| String::from(*s)).collect()
}

#[test]
fn configuration_of_first_http_line() {
    let content = lines(&["PATH=/usr/bin", "http_proxy=\"http://proxy:3128\"", "http_proxy=other"]);
    assert_eq!(get_configuration(&content), Some(String::from("http://proxy:3128")));
}

#[test]
fn configuration_takes_last_equal_sign() {
    let content = lines(&["export http_proxy=a=b"]);
    assert_eq!(get_configuration(&content), Some(String::from("b")));
    let content = lines(&["http_proxy"]);
    assert_eq!(get_configuration(&content), Some(String::from("http_proxy")));
}

#[test]
fn no_configuration_without_http_line() {
    let content = lines(&["HTTP_PROXY=x", "https_proxy=y"]);
    assert_eq!(get_configuration(&content), None);
    assert_eq!(get_configuration(&Vec::new()), None);
}

#[test]
fn add_replaces_and_appends() {
    let content = lines(&["PATH=/usr/bin", "http_proxy=old"]);
    let out = add_proxy_lines(content, "http://p:8080");
    assert_eq!(
        out,
        lines(&[
            "PATH=/usr/bin",
            "http_proxy=\"http://p:8080\"",
            "HTTP_PROXY=\"http://p:8080\"",
            "https_proxy=\"http://p:8080\"",
            "HTTPS_PROXY=\"http://p:8080\"",
            "ftp_proxy=\"http://p:8080\"",
            "FTP_PROXY=\"http://p:8080\"",
        ])
    );
}

#[test]
fn add_writes_joined_lines() {
    let cmd = Commands::Add { proxy_url: String::from("http://p") };
    match manage_proxy(&cmd, lines(&["A=1"])) {
        EnvironmentAction::Write(text) => assert_eq!(
            text,
            "A=1\nhttp_proxy=\"http://p\"\nHTTP_PROXY=\"http://p\"\nhttps_proxy=\"http://p\"\nHTTPS_PROXY=\"http://p\"\nftp_proxy=\"http://p\"\nFTP_PROXY=\"http://p\""
        ),
        EnvironmentAction::Report(_) => panic!("Add reports nothing"),
    }
}

#[test]
fn remove_drops_proxy_lines_in_any_case() {
    let content = lines(&["PATH=x", "HTTP_PROXY=y", "no_proxy=z", "LANG=C", "Ftp_Proxy=w"]);
    assert_eq!(remove_proxy_lines(&content), lines(&["PATH=x", "LANG=C"]));
    match manage_proxy(&Commands::Remove, content) {
        EnvironmentAction::Write(text) => assert_eq!(text, "PATH=x\nLANG=C"),
        EnvironmentAction::Report(_) => panic!("Remove reports nothing"),
    }
}

#[test]
fn show_reports_without_writing() {
    let content = lines(&["http_proxy=\"u\""]);
    match manage_proxy(&Commands::Show, content) {
        EnvironmentAction::Report(p) => assert_eq!(p, Some(String::from("u"))),
        EnvironmentAction::Write(_) => panic!("Show writes nothing"),
    }
}

#[test]
fn lines_are_split_like_str_lines() {
    assert_eq!(split_lines("a\r\nb\n\nc"), lines(&["a", "b", "", "c"]));
    assert_eq!(split_lines("a\n"), lines(&["a"]));
    assert_eq!(split_lines(""), Vec::<String>::new());
    assert_eq!(split_lines("\n"), lines(&[""]));
    assert_eq!(split_lines("x\r"), lines(&["x\r"]));
    assert_eq!(join_lines_exec(&lines(&["a", "b"])), "a\nb");
    assert_eq!(join_lines_exec(&Vec::new()), "");
}

#[test]
fn show_after_add_through_file() {
    let file = "PATH=/usr/bin\nLANG=C\n";
    let written = match manage_proxy(
        &Commands::Add { proxy_url: String::from("http://proxy:3128") },
        split_lines(file),
    ) {
        EnvironmentAction::Write(t) => t,
        EnvironmentAction::Report(_) => panic!("Add reports nothing"),
    };
    assert_eq!(
        get_configuration(&split_lines(&written)),
        Some(String::from("http://proxy:3128"))
    );
}

#[test]
fn add_twice_is_add_once() {
    let once = add_proxy_lines(lines(&["X=1", "ftp_proxy=a"]), "u");
    let twice = add_proxy_lines(once.clone(), "u");
    assert_eq!(once, twice);
}

#[test]
fn remove_twice_is_remove_once() {
    let once = remove_proxy_lines(&lines(&["X=1", "https_proxy=a", "Y=2"]));
    assert_eq!(remove_proxy_lines(&once), once);
}

#[test]
fn lines_roundtrip_through_text() {
    let ls = lines(&["a", "", "b c"]);
    assert_eq!(split_lines(&join_lines_exec(&ls)), ls);
}

#[test]
fn show_after_add_through_file_ending_in_blank_line() {
    let file = "PATH=/usr/bin\r\nLANG=C\n\n";
    let written = match manage_proxy(
        &Commands::Add { proxy_url: String::from("http://proxy:3128") },
        split_lines(file),
    ) {
        EnvironmentAction::Write(t) => t,
        EnvironmentAction::Report(_) => panic!("Add reports nothing"),
    };
    assert_eq!(
        get_configuration(&split_lines(&written)),
        Some(String::from("http://proxy:3128"))
    );
}

#[test]
fn add_twice_through_file_with_quotes_and_equal_signs() {
    let url = "http://u:p=\"x\"@h:1";
    let file = "X=1\nftp_proxy=a";
    let write = |text: &str| match manage_proxy(
        &Commands::Add { proxy_url: String::from(url) },
        split_lines(text),
    ) {
        EnvironmentAction::Write(t) => t,
        EnvironmentAction::Report(_) => panic!("Add reports nothing"),
    };
    let once = write(file);
    assert_eq!(write(&once), once);
}

#[test]
fn remove_then_show_through_file() {
    let file = "PATH=/usr/bin\nexport Http_Proxy=\"http://a\"\nhttp_proxy=x\n";
    let written = match manage_proxy(&Commands::Remove, split_lines(file)) {
        EnvironmentAction::Write(t) => t,
        EnvironmentAction::Report(_) => panic!("Remove reports nothing"),
    };
    assert_eq!(written, "PATH=/usr/bin");
    assert_eq!(get_configuration(&split_lines(&written)), None);
}

#[test]
fn remove_undoes_add() {
    let original = lines(&["X=1", "HTTP_PROXY=a", "export ftp_proxy=b", "Y=2"]);
    let added = add_proxy_lines(original.clone(), "http://u:1");
    assert_eq!(remove_proxy_lines(&added), remove_proxy_lines(&original));
    assert_eq!(remove_proxy_lines(&added), lines(&["X=1", "Y=2"]));
}

#[test]
fn variable_names_in_either_case_are_removed() {
    let names = lines(&[
        "http_proxy",
        "HTTP_PROXY",
        "https_proxy",
        "HTTPS_PROXY",
        "ftp_proxy",
        "FTP_PROXY",
        "no_proxy",
        "NO_PROXY",
        "kept",
    ]);
    assert_eq!(remove_proxy_lines(&names), lines(&["kept"]));
}

#[test]
fn remove_undoes_add_through_file_with_unicode() {
    let file = "LANG=fr_FR.UTF-8\nNOM=Élodie ΣΑΣ\n\nX=1";
    let url = "http://prôxy:3128";
    let added = match manage_proxy(&Commands::Add { proxy_url: String::from(url) }, split_lines(file)) {
        EnvironmentAction::Write(t) => t,
        EnvironmentAction::Report(_) => panic!("Add reports nothing"),
    };
    let removed = match manage_proxy(&Commands::Remove, split_lines(&added)) {
        EnvironmentAction::Write(t) => t,
        EnvironmentAction::Report(_) => panic!("Remove reports nothing"),
    };
    assert_eq!(removed, split_lines(file).join("\n"));
}

#[test]
fn show_after_remove_with_unicode_lines() {
    let file = "É=1\nexport Http_Proxy=\"http://é\"\nΣ=2\n";
    let written = match manage_proxy(&Commands::Remove, split_lines(file)) {
        EnvironmentAction::Write(t) => t,
        EnvironmentAction::Report(_) => panic!("Remove reports nothing"),
    };
    assert_eq!(written, "É=1\nΣ=2");
    assert_eq!(get_configuration(&split_lines(&written)), None);
}
