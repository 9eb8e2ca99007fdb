use change_proxy::libs::apt::{
    add_proxy_lines, convert_value, manage_proxy, parse_apt_config, remove_proxy_lines, tokenize,
    AptAction, AptParseError, ContentType, Scope, Token,
};
use change_proxy::libs::args::Commands;

fn scope(name: &str, content: Vec<(&str, ContentType)>) -> Scope {
    Scope {
        name: String::from(name),
        content: content
            .into_iter()
            .map(|(k, v)| (String::from(k), v))
            .collect(),
    }
}

#[test]
fn simple_bracket() {
    let content = String::from(
        r#"APT {
                Get {
                    Assume-Yes "true";
                };
            };
            "#,
    );
    let dict_scopes_parsed = parse_apt_config(content).unwrap();
    let scope_goal = scope(
        "APT",
        vec![(
            "Get",
            ContentType::Scope(scope("Get", vec![("Assume-Yes", ContentType::Bool(true))])),
        )],
    );
    assert_eq!(dict_scopes_parsed.get("APT"), Some(&scope_goal));
}

#[test]
fn complete_brackets() {
    let content = String::from(
        r#"APT {
                Get {
                    Assume-Yes "true";
                    Fix-Broken "true";
                };
            };
            "#,
    );
    let dict_scopes_parsed = parse_apt_config(content).unwrap();
    let scope_goal = scope(
        "APT",
        vec![(
            "Get",
            ContentType::Scope(scope(
                "Get",
                vec![
                    ("Assume-Yes", ContentType::Bool(true)),
                    ("Fix-Broken", ContentType::Bool(true)),
                ],
            )),
        )],
    );
    assert_eq!(dict_scopes_parsed.get("APT"), Some(&scope_goal));
}

#[test]
fn simple_monoline() {
    let content = String::from(
        r#"
            APT::Get::Assume-Yes "true";
            "#,
    );
    let dict_scopes_parsed = parse_apt_config(content).unwrap();
    let scope_goal = scope(
        "APT",
        vec![(
            "Get",
            ContentType::Scope(scope("Get", vec![("Assume-Yes", ContentType::Bool(true))])),
        )],
    );
    assert_eq!(dict_scopes_parsed.get("APT"), Some(&scope_goal));
}

#[test]
fn complete_monolines() {
    let content = String::from(
        r#"
            APT::Get::Assume-Yes "true";
            APT::Get::Fix-Broken "true";
            "#,
    );
    let dict_scopes_parsed = parse_apt_config(content).unwrap();
    let scope_goal = scope(
        "APT",
        vec![(
            "Get",
            ContentType::Scope(scope(
                "Get",
                vec![
                    ("Assume-Yes", ContentType::Bool(true)),
                    ("Fix-Broken", ContentType::Bool(true)),
                ],
            )),
        )],
    );
    assert_eq!(dict_scopes_parsed.get("APT"), Some(&scope_goal));
}

#[test]
fn complete_hybride() {
    let content = String::from(
        r#"
                APT {
                    Get {
                        Assume-Yes "true";
                    };
                    Cache
                    {
                        AllNames "true";
                    };
                };
                Acquire::Languages { "environment"; "fr"; "en"; "none"; "de"; };
            "#,
    );
    let dict_scopes_parsed = parse_apt_config(content).unwrap();
    let scope_goal_apt = scope(
        "APT",
        vec![
            (
                "Get",
                ContentType::Scope(scope("Get", vec![("Assume-Yes", ContentType::Bool(true))])),
            ),
            (
                "Cache",
                ContentType::Scope(scope("Cache", vec![("AllNames", ContentType::Bool(true))])),
            ),
        ],
    );
    let scope_goal_acquire = scope(
        "Acquire",
        vec![(
            "Languages",
            ContentType::List(Vec::from([
                String::from("environment"),
                String::from("fr"),
                String::from("en"),
                String::from("none"),
                String::from("de"),
            ])),
        )],
    );
    assert_eq!(dict_scopes_parsed.get("APT"), Some(&scope_goal_apt));
    assert_eq!(dict_scopes_parsed.get("Acquire"), Some(&scope_goal_acquire))
}

#[test]
fn later_assignment_overrides_earlier() {
    let content = String::from("A::B \"1\";\nA { B \"two\"; };\n");
    let parsed = parse_apt_config(content).unwrap();
    let goal = scope("A", vec![("B", ContentType::String(String::from("two")))]);
    assert_eq!(parsed.get("A"), Some(&goal));
}

#[test]
fn value_replaced_by_scope() {
    let content = String::from("A::B \"x\"; A::B::C \"y\";");
    let parsed = parse_apt_config(content).unwrap();
    let goal = scope(
        "A",
        vec![(
            "B",
            ContentType::Scope(scope("B", vec![("C", ContentType::String(String::from("y")))])),
        )],
    );
    assert_eq!(parsed.get("A"), Some(&goal));
}

#[test]
fn list_items_accumulate() {
    let content = String::from("A::L { \"a\"; };\nA::L { \"b\"; };");
    let parsed = parse_apt_config(content).unwrap();
    let goal = scope(
        "A",
        vec![(
            "L",
            ContentType::List(vec![String::from("a"), String::from("b")]),
        )],
    );
    assert_eq!(parsed.get("A"), Some(&goal));
}

#[test]
fn comments_are_skipped() {
    let content = String::from(
        "// a comment\n# another one\nAcquire::http::Proxy \"http://proxy:3128/\"; // trailing\n",
    );
    let parsed = parse_apt_config(content).unwrap();
    let goal = scope(
        "Acquire",
        vec![(
            "http",
            ContentType::Scope(scope(
                "http",
                vec![("Proxy", ContentType::String(String::from("http://proxy:3128/")))],
            )),
        )],
    );
    assert_eq!(parsed.get("Acquire"), Some(&goal));
    assert_eq!(parsed.get("APT"), None);
}

#[test]
fn errors_of_each_kind() {
    assert_eq!(
        parse_apt_config(String::from("A::B \"open;")),
        Err(AptParseError::UnterminatedString)
    );
    assert_eq!(
        parse_apt_config(String::from("A::B;")),
        Err(AptParseError::UnexpectedToken)
    );
    assert_eq!(
        parse_apt_config(String::from("A { B \"x\"; };\n};")),
        Err(AptParseError::UnbalancedBraces)
    );
    assert_eq!(
        parse_apt_config(String::from("A { B \"x\";")),
        Err(AptParseError::UnbalancedBraces)
    );
    assert_eq!(
        parse_apt_config(String::from("Top \"x\";")),
        Err(AptParseError::TopLevelValue)
    );
    assert_eq!(
        parse_apt_config(String::from("A { \"item\"; };")),
        Err(AptParseError::TopLevelValue)
    );
    assert_eq!(
        parse_apt_config(String::from("A::B \"x\"")),
        Err(AptParseError::UnexpectedEnd)
    );
}

#[test]
fn empty_text_has_no_scope() {
    let parsed = parse_apt_config(String::new()).unwrap();
    assert!(parsed.scopes.is_empty());
}

#[test]
fn values_are_typed() {
    assert_eq!(convert_value("true"), ContentType::Bool(true));
    assert_eq!(convert_value("false"), ContentType::Bool(false));
    assert_eq!(convert_value("42"), ContentType::Integer(42));
    assert_eq!(convert_value("-17"), ContentType::Integer(-17));
    assert_eq!(
        convert_value("-9223372036854775808"),
        ContentType::Integer(i64::MIN)
    );
    assert_eq!(
        convert_value("9223372036854775808"),
        ContentType::String(String::from("9223372036854775808"))
    );
    assert_eq!(
        convert_value("99999999999999999999999"),
        ContentType::String(String::from("99999999999999999999999"))
    );
    assert_eq!(convert_value("-"), ContentType::String(String::from("-")));
    assert_eq!(convert_value("1a"), ContentType::String(String::from("1a")));
    assert_eq!(convert_value(""), ContentType::String(String::new()));
    assert_eq!(convert_value("True"), ContentType::String(String::from("True")));
}

#[test]
fn tokens_of_a_statement() {
    let toks = tokenize("A::B { \"v\"; }; /x").unwrap();
    assert_eq!(
        toks,
        vec![
            Token::Word(String::from("A")),
            Token::Colon,
            Token::Colon,
            Token::Word(String::from("B")),
            Token::Open,
            Token::Text(String::from("v")),
            Token::Semicolon,
            Token::Close,
            Token::Semicolon,
            Token::Word(String::from("/x")),
        ]
    );
}

#[test]
fn scope_and_path_forms_agree() {
    let scoped = parse_apt_config(String::from("A { B::C \"1\"; D \"x\"; };")).unwrap();
    let flat = parse_apt_config(String::from("A::B::C \"1\"; A::D \"x\";")).unwrap();
    assert_eq!(scoped, flat);
}

#[test]
fn scopes_merge_and_keys_stay_in_place() {
    let content = String::from("A::x \"1\";\nB::y \"2\";\nA::x \"3\";\nA { z \"4\"; };\n");
    let parsed = parse_apt_config(content).unwrap();
    assert_eq!(
        parsed.scopes,
        vec![
            scope(
                "A",
                vec![("x", ContentType::Integer(3)), ("z", ContentType::Integer(4))]
            ),
            scope("B", vec![("y", ContentType::Integer(2))]),
        ]
    );
}

#[test]
fn apt_add_sets_each_protocol() {
    let content = "APT::Get::Assume-Yes \"true\";\nAcquire::https::Proxy \"http://old\";\n";
    let cmd = Commands::Add { proxy_url: String::from("http://p:3128") };
    match manage_proxy(&cmd, content) {
        Ok(AptAction::Write(text)) => assert_eq!(
            text,
            "APT::Get::Assume-Yes \"true\";\nAcquire::https::Proxy \"http://p:3128\";\nAcquire::http::Proxy \"http://p:3128\";\nAcquire::ftp::Proxy \"http://p:3128\";"
        ),
        _ => panic!("Add writes"),
    }
}

#[test]
fn apt_written_proxy_parses_back() {
    let cmd = Commands::Add { proxy_url: String::from("http://p:3128") };
    let text = match manage_proxy(&cmd, "") {
        Ok(AptAction::Write(text)) => text,
        _ => panic!("Add writes"),
    };
    let parsed = parse_apt_config(text).unwrap();
    assert_eq!(
        parsed.get("Acquire"),
        Some(&scope(
            "Acquire",
            vec![
                ("http", ContentType::Scope(scope("http", vec![("Proxy", ContentType::String(String::from("http://p:3128")))]))),
                ("https", ContentType::Scope(scope("https", vec![("Proxy", ContentType::String(String::from("http://p:3128")))]))),
                ("ftp", ContentType::Scope(scope("ftp", vec![("Proxy", ContentType::String(String::from("http://p:3128")))]))),
            ]
        ))
    );
}

#[test]
fn apt_remove_undoes_add() {
    let original: Vec<String> = vec![
        String::from("APT::Get::Assume-Yes \"true\";"),
        String::from("Acquire::http::Proxy \"http://old\";"),
    ];
    let added = add_proxy_lines(original.clone(), "http://new");
    assert_eq!(remove_proxy_lines(&added), remove_proxy_lines(&original));
    match manage_proxy(&Commands::Remove, "a::b \"1\";\nAcquire::ftp::Proxy \"x\";\nc::d \"2\";") {
        Ok(AptAction::Write(text)) => assert_eq!(text, "a::b \"1\";\nc::d \"2\";"),
        _ => panic!("Remove writes"),
    }
}

#[test]
fn apt_show_reports_configuration() {
    match manage_proxy(&Commands::Show, "A::B \"x\";") {
        Ok(AptAction::Report(c)) => assert_eq!(
            c.get("A"),
            Some(&scope("A", vec![("B", ContentType::String(String::from("x")))]))
        ),
        _ => panic!("Show reports"),
    }
    assert!(manage_proxy(&Commands::Show, "A {").is_err());
}

#[test]
fn nested_blocks_and_paths_agree() {
    let blocks = parse_apt_config(String::from(
        "APT {\nGet {\nAssume-Yes \"true\";\n};\nCache::AllNames \"true\";\n};\nAcquire {\nhttp {\nProxy \"http://p\";\n};\n};\n",
    ))
    .unwrap();
    let paths = parse_apt_config(String::from(
        "APT::Get::Assume-Yes \"true\";\nAPT::Cache::AllNames \"true\";\nAcquire::http::Proxy \"http://p\";\n",
    ))
    .unwrap();
    assert_eq!(blocks, paths);
    assert_eq!(blocks.get("APT"), paths.get("APT"));
}
