# change_proxy

Sets, removes and shows the proxy used by apt, docker, `/etc/environment` and VSCode.

- `src/` is the verified library (Verus). `libs/environment.rs` edits the proxy lines of
  `/etc/environment`; `libs/apt.rs` reads the APT configuration language into a tree of
  scopes and sets or removes APT's `Acquire::<protocol>::Proxy` settings; `libs/docker.rs` edits docker's systemd drop-in through the `ini` crate;
  `libs/vscode.rs` edits the `http.proxy` setting through the `json` crate; `libs/mod.rs`
  selects the services and the log level; `libs/args.rs` and `args.rs` model the command line.
- `app/main.rs` is the program: command line parsing (clap), file reads and writes (with the
  file owner kept), privilege escalation (sudo), systemctl, and logging (tracing).
- `tests/` runs the library on concrete inputs.
