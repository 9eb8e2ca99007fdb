use change_proxy::libs::args::Commands;
use change_proxy::libs::docker::{self, DockerAction};
use change_proxy::libs::get_json_parsed;
use change_proxy::libs::vscode::{
    self, configuration_candidates, first_existing, settings_text, VscodeAction,
};

#[test]
fn docker_add_writes_environment_file() {
    let cmd = Commands::Add { proxy_url: String::from("http://p") };
    match docker::manage_proxy(&cmd, None, &Vec::new()) {
        DockerAction::Configure(text) => {
            assert_eq!(text, "[Service]\nEnvironmentFile=-/etc/environment\n")
        }
        _ => panic!("Add configures the drop-in"),
    }
}

#[test]
fn docker_add_keeps_other_keys() {
    let unit = String::from("[Service]\nEnvironment=A=1\nEnvironmentFile=/old\n");
    let cmd = Commands::Add { proxy_url: String::from("http://p") };
    match docker::manage_proxy(&cmd, Some(unit), &Vec::new()) {
        DockerAction::Configure(text) => assert_eq!(
            text,
            "[Service]\nEnvironment=A=1\nEnvironmentFile=-/etc/environment\n"
        ),
        _ => panic!("Add configures the drop-in"),
    }
}

#[test]
fn docker_add_moves_replaced_key_last() {
    let unit = String::from("[Service]\nEnvironmentFile=/old\nEnvironment=A=1\n");
    let cmd = Commands::Add { proxy_url: String::from("http://p") };
    match docker::manage_proxy(&cmd, Some(unit), &Vec::new()) {
        DockerAction::Configure(text) => assert_eq!(
            text,
            "[Service]\nEnvironment=A=1\nEnvironmentFile=-/etc/environment\n"
        ),
        _ => panic!("Add configures the drop-in"),
    }
}

#[test]
fn docker_remove_restarts() {
    assert!(matches!(
        docker::manage_proxy(&Commands::Remove, None, &Vec::new()),
        DockerAction::Restart
    ));
}

#[test]
fn docker_show_reports() {
    let unit = String::from("\u{feff}[Service]\nEnvironmentFile=-/etc/environment\n");
    let env = vec![String::from("http_proxy=\"http://p:1\"")];
    match docker::manage_proxy(&Commands::Show, Some(unit), &env) {
        DockerAction::Report { service, environment_file, proxy } => {
            assert!(service);
            assert_eq!(environment_file, Some(String::from("-/etc/environment")));
            assert_eq!(proxy, Some(String::from("http://p:1")));
        }
        _ => panic!("Show reports"),
    }
    match docker::manage_proxy(&Commands::Show, None, &Vec::new()) {
        DockerAction::Report { service, environment_file, proxy } => {
            assert!(!service);
            assert_eq!(environment_file, None);
            assert_eq!(proxy, None);
        }
        _ => panic!("Show reports"),
    }
}

#[test]
fn vscode_candidates() {
    assert_eq!(
        configuration_candidates("/home/u"),
        vec![
            String::from("/home/u/.config/Code/User/settings.json"),
            String::from("/home/u/.var/app/com.visualstudio.code/config/Code/User/settings.json"),
        ]
    );
}

#[test]
fn vscode_add_then_show() {
    let settings = get_json_parsed("{\"editor.fontSize\": 12}").unwrap();
    let cmd = Commands::Add { proxy_url: String::from("http://p:3128") };
    let updated = match vscode::manage_proxy(&cmd, settings) {
        Ok(VscodeAction::Write(v)) => v,
        _ => panic!("Add writes"),
    };
    let text = settings_text(&updated);
    assert!(text.contains("\"http.proxy\": \"http://p:3128\""));
    assert!(text.contains("\"editor.fontSize\": 12"));
    let reread = get_json_parsed(&text).unwrap();
    match vscode::manage_proxy(&Commands::Show, reread) {
        Ok(VscodeAction::Report(p)) => assert_eq!(p, Some(String::from("http://p:3128"))),
        _ => panic!("Show reports"),
    }
}

#[test]
fn vscode_remove_then_show() {
    let settings = get_json_parsed("{\"http.proxy\": \"http://old\", \"a\": true}").unwrap();
    let updated = match vscode::manage_proxy(&Commands::Remove, settings) {
        Ok(VscodeAction::Write(v)) => v,
        _ => panic!("Remove writes"),
    };
    match vscode::manage_proxy(&Commands::Show, updated) {
        Ok(VscodeAction::Report(p)) => assert_eq!(p, None),
        _ => panic!("Show reports"),
    }
}

#[test]
fn vscode_add_refused_on_array() {
    let settings = get_json_parsed("[1, 2]").unwrap();
    let cmd = Commands::Add { proxy_url: String::from("http://p") };
    assert!(vscode::manage_proxy(&cmd, settings).is_err());
}

#[test]
fn invalid_json_is_an_error() {
    assert!(get_json_parsed("{not json").is_err());
}

#[test]
fn vscode_add_replaces_proxy_in_place() {
    let settings =
        get_json_parsed("{\"http.proxy\": \"http://old\", \"a\": null, \"b\": true}").unwrap();
    let cmd = Commands::Add { proxy_url: String::from("http://new") };
    let updated = match vscode::manage_proxy(&cmd, settings) {
        Ok(VscodeAction::Write(v)) => v,
        _ => panic!("Add writes"),
    };
    assert_eq!(
        settings_text(&updated),
        "{\n    \"http.proxy\": \"http://new\",\n    \"a\": null,\n    \"b\": true\n}"
    );
}

#[test]
fn vscode_add_appends_proxy_at_end() {
    let settings = get_json_parsed("{\"b\": 1, \"a\": [2]}").unwrap();
    let cmd = Commands::Add { proxy_url: String::from("http://p") };
    let updated = match vscode::manage_proxy(&cmd, settings) {
        Ok(VscodeAction::Write(v)) => v,
        _ => panic!("Add writes"),
    };
    assert_eq!(
        settings_text(&updated),
        "{\n    \"b\": 1,\n    \"a\": [\n        2\n    ],\n    \"http.proxy\": \"http://p\"\n}"
    );
}

#[test]
fn vscode_remove_keeps_other_members_in_order() {
    let settings =
        get_json_parsed("{\"z\": 1, \"http.proxy\": \"http://old\", \"a\": \"x\"}").unwrap();
    let updated = match vscode::manage_proxy(&Commands::Remove, settings) {
        Ok(VscodeAction::Write(v)) => v,
        _ => panic!("Remove writes"),
    };
    assert_eq!(settings_text(&updated), "{\n    \"z\": 1,\n    \"a\": \"x\"\n}");
}

#[test]
fn vscode_show_displays_non_string_proxy() {
    let settings = get_json_parsed("{\"http.proxy\": 8080}").unwrap();
    match vscode::manage_proxy(&Commands::Show, settings) {
        Ok(VscodeAction::Report(p)) => assert_eq!(p, Some(String::from("8080"))),
        _ => panic!("Show reports"),
    }
    let settings = get_json_parsed("{\"http.proxy\": null}").unwrap();
    match vscode::manage_proxy(&Commands::Show, settings) {
        Ok(VscodeAction::Report(p)) => assert_eq!(p, None),
        _ => panic!("Show reports"),
    }
}

#[test]
fn vscode_first_existing_candidate() {
    assert_eq!(first_existing(&vec![false, true]), Some(1));
    assert_eq!(first_existing(&vec![true, true]), Some(0));
    assert_eq!(first_existing(&vec![false, false]), None);
    assert_eq!(first_existing(&Vec::new()), None);
}
