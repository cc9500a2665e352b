use marginalia::zed::{
    binary_path, context_server_command, discovered_command, discovery_error, env_probe_script,
    lookup_script, named_pairs, pinned_command, unresolved, CommandSettings, CommandStep,
    ServerCommand,
};

#[test]
fn named_pairs_zips_names_with_printed_lines_and_drops_empty_ones() {
    assert_eq!(
        named_pairs(&["PATH", "HOME"], "/usr/bin:/bin\n/home/me\n"),
        vec![
            ("PATH".to_owned(), "/usr/bin:/bin".to_owned()),
            ("HOME".to_owned(), "/home/me".to_owned())
        ]
    );
    assert_eq!(
        named_pairs(&["PATH", "HOME"], "\n/home/me"),
        vec![("HOME".to_owned(), "/home/me".to_owned())]
    );
    assert_eq!(
        named_pairs(&["PATH", "HOME"], "/bin"),
        vec![("PATH".to_owned(), "/bin".to_owned())]
    );
    assert_eq!(named_pairs(&["PATH"], "a\nb\nc"), vec![("PATH".to_owned(), "a".to_owned())]);
    assert_eq!(named_pairs(&[], "a"), Vec::<(String, String)>::new());
}

#[test]
fn unresolved_names_the_setting_that_pins_the_binary() {
    assert_eq!(
        unresolved("marginalia", "`command -v marginalia-mcp` found nothing"),
        "Could not resolve the marginalia-mcp binary: `command -v marginalia-mcp` found nothing. \
         Set `context_servers.marginalia.command.path` in your Zed settings to its absolute path."
    );
}

#[test]
fn binary_path_takes_a_printed_path_and_refuses_an_empty_one() {
    assert_eq!(lookup_script("m", false), Ok("command -v marginalia-mcp".to_owned()));
    assert_eq!(
        lookup_script("m", true),
        Err(unresolved("m", "cannot look `marginalia-mcp` up automatically on Windows"))
    );
    assert_eq!(
        binary_path("m", Ok("/bin/marginalia-mcp\n".to_owned())),
        Ok("/bin/marginalia-mcp".to_owned())
    );
    assert_eq!(
        binary_path("m", Ok(" \n".to_owned())),
        Err(unresolved("m", "`command -v marginalia-mcp` found nothing"))
    );
    assert_eq!(
        binary_path("m", Ok(String::new())),
        Err(unresolved("m", "`command -v marginalia-mcp` found nothing"))
    );
    assert_eq!(
        binary_path("m", Err("exited with Some(1)".to_owned())),
        Err(unresolved("m", "exited with Some(1)"))
    );
}

#[test]
fn discovery_error_adds_the_settings_failure() {
    assert_eq!(discovery_error("no binary.".to_owned(), None), "no binary.");
    assert_eq!(
        discovery_error("no binary.".to_owned(), Some("bad json".to_owned())),
        "no binary. Reading its settings also failed: bad json"
    );
}

#[test]
fn pinned_command_needs_a_path_and_fills_in_the_rest() {
    assert_eq!(pinned_command(None), None);
    assert_eq!(
        pinned_command(Some(CommandSettings { path: None, arguments: Some(vec!["-v".to_owned()]), env: None })),
        None
    );
    assert_eq!(
        pinned_command(Some(CommandSettings { path: Some("/opt/m".to_owned()), arguments: None, env: None })),
        Some(ServerCommand { command: "/opt/m".to_owned(), args: Vec::new(), env: Vec::new() })
    );
    assert_eq!(
        pinned_command(Some(CommandSettings {
            path: Some("/opt/m".to_owned()),
            arguments: Some(vec!["--quiet".to_owned()]),
            env: Some(vec![("HOME".to_owned(), "/h".to_owned())]),
        })),
        Some(ServerCommand {
            command: "/opt/m".to_owned(),
            args: vec!["--quiet".to_owned()],
            env: vec![("HOME".to_owned(), "/h".to_owned())],
        })
    );
}

#[test]
fn context_server_command_uses_a_pinned_binary_and_looks_up_otherwise() {
    let pinned = CommandSettings { path: Some("/opt/m".to_owned()), arguments: None, env: None };
    assert_eq!(
        context_server_command(Ok(Some(pinned))),
        CommandStep::Use(ServerCommand { command: "/opt/m".to_owned(), args: Vec::new(), env: Vec::new() })
    );
    assert_eq!(context_server_command(Ok(None)), CommandStep::Discover { settings_error: None });
    assert_eq!(
        context_server_command(Err("bad".to_owned())),
        CommandStep::Discover { settings_error: Some("bad".to_owned()) }
    );
}

#[test]
fn discovered_command_leaves_an_unset_variable_out() {
    assert_eq!(env_probe_script(), "printf '%s\\n%s\\n' \"$PATH\" \"$HOME\"");
    assert_eq!(
        discovered_command("m", "/bin/mm".to_owned(), Ok("\n/home/me\n".to_owned())),
        Ok(ServerCommand {
            command: "/bin/mm".to_owned(),
            args: Vec::new(),
            env: vec![("HOME".to_owned(), "/home/me".to_owned())],
        })
    );
    assert_eq!(
        discovered_command("m", "/bin/mm".to_owned(), Ok("/bin\n/home/me\n".to_owned())),
        Ok(ServerCommand {
            command: "/bin/mm".to_owned(),
            args: Vec::new(),
            env: vec![
                ("PATH".to_owned(), "/bin".to_owned()),
                ("HOME".to_owned(), "/home/me".to_owned())
            ],
        })
    );
    assert_eq!(
        discovered_command("m", "/bin/mm".to_owned(), Err("boom".to_owned())),
        Err(unresolved("m", "boom"))
    );
}
