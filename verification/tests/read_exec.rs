use learnminal::read_exec::{
    check_paths, check_policy, enabled_from, expand_tildes, format_report, inspect_root,
    is_path_candidate, is_secret_env_key, is_secret_path, parse_command, plan_command,
    redact_env_output, run_command_tool_result, similar_entries, spelling_hint,
    suggestions_within_scope, tokenize, visible_entries, ArgFacts, PolicyError, RunOutcome,
    MAX_SUGGESTIONS, OUTPUT_BUDGET_CHARS,
};

/// A file system: what is there, and which names are links to elsewhere.
struct Tree {
    paths: Vec<&'static str>,
    links: Vec<(&'static str, &'static str)>,
}

impl Tree {
    fn new(paths: &[&'static str]) -> Self {
        Tree { paths: paths.to_vec(), links: Vec::new() }
    }

    fn resolve(&self, path: &str) -> Option<String> {
        let mut parts: Vec<&str> = Vec::new();
        for part in path.split('/') {
            match part {
                "" | "." => {},
                ".." => {
                    parts.pop();
                },
                name => parts.push(name),
            }
        }
        let flat = format!("/{}", parts.join("/"));
        for (from, to) in &self.links {
            if flat == *from {
                return Some(to.to_string());
            }
        }
        if flat == "/" || self.paths.iter().any(|p| *p == flat || p.starts_with(&format!("{flat}/"))) {
            Some(flat)
        } else {
            None
        }
    }

    fn names(&self, dir: &str) -> Vec<String> {
        let mut names = Vec::new();
        for path in &self.paths {
            if let Some(rest) = path.strip_prefix(&format!("{dir}/")) {
                let name = rest.split('/').next().unwrap().to_string();
                if !names.contains(&name) {
                    names.push(name);
                }
            }
        }
        names
    }

    fn facts(&self, root: &str, token: &str) -> ArgFacts {
        let path = if token.starts_with('/') { token.to_string() } else { format!("{root}/{token}") };
        let resolved = self.resolve(&path);
        let parent = path.rsplit_once('/').and_then(|(dir, _)| self.resolve(dir));
        let names = parent.as_deref().map(|d| self.names(d)).unwrap_or_default();
        ArgFacts { exists: resolved.is_some(), resolved, parent, names }
    }

    fn all_facts(&self, root: &str, tokens: &[String]) -> Vec<ArgFacts> {
        tokens.iter().skip(1).map(|t| self.facts(root, t)).collect()
    }

    fn check(&self, command: &str, root: &str) -> Result<(), PolicyError> {
        let tokens = plan_command(command, Some("/home/u"))?;
        check_paths(&tokens, root, &self.all_facts(root, &tokens))
    }

    fn refuse(&self, command: &str, root: &str) -> PolicyError {
        self.check(command, root).expect_err("expected refusal")
    }

    fn run(&self, command: &str, root: &str, outcome: RunOutcome) -> String {
        let facts = match plan_command(command, Some("/home/u")) {
            Ok(tokens) => self.all_facts(root, &tokens),
            Err(_) => Vec::new(),
        };
        run_command_tool_result(command, Some("/home/u"), root, &facts, &outcome, &facts)
    }
}

fn ended(success: bool, code: i32, stdout: &str, stderr: &str) -> RunOutcome {
    RunOutcome::Finished {
        success,
        code: Some(code),
        stdout: stdout.as_bytes().to_vec(),
        stderr: stderr.as_bytes().to_vec(),
    }
}

fn texts(list: &[&str]) -> Vec<String> {
    list.iter().map(|s| s.to_string()).collect()
}

#[test]
fn tokenize_handles_quotes() {
    assert_eq!(tokenize(r#"cat "my file.txt""#).unwrap(), vec!["cat", "my file.txt"]);
    assert_eq!(tokenize("ls   -la  src").unwrap(), vec!["ls", "-la", "src"]);
    assert_eq!(tokenize("grep 'two words' f").unwrap(), vec!["grep", "two words", "f"]);
    // An empty quoted string is still an argument.
    assert_eq!(tokenize(r#"grep "" f"#).unwrap(), vec!["grep", "", "f"]);
}

#[test]
fn tokenize_rejects_unterminated_quote() {
    assert_eq!(tokenize("cat \"oops").unwrap_err(), PolicyError::UnterminatedQuote);
}

#[test]
fn find_grouping_syntax_survives_tokenizing() {
    // The shell strips these backslashes before find sees them; with no
    // shell in the loop the tokenizer has to do it.
    let tokens = tokenize(r#"find . \( -iname "*.mp4" -o -iname "*.mkv" \)"#).unwrap();
    assert_eq!(
        tokens,
        vec!["find", ".", "(", "-iname", "*.mp4", "-o", "-iname", "*.mkv", ")"]
    );
    assert!(check_policy(&tokens).is_ok());
}

#[test]
fn escaping_does_not_smuggle_a_second_command() {
    let tree = Tree::new(&["/work/a"]);
    // Escaping a metacharacter must not slip it past the scan.
    assert!(matches!(tree.refuse(r"ls \; rm -rf /", "/work"), PolicyError::ShellMetachar(';')));
    assert!(matches!(tree.refuse(r"ls \| cat", "/work"), PolicyError::ShellMetachar('|')));
    // A trailing backslash is malformed rather than silently dropped.
    assert!(matches!(tree.refuse("ls foo\\", "/work"), PolicyError::UnterminatedQuote));
}

#[test]
fn rejects_shell_metacharacters() {
    let tree = Tree::new(&["/work/a"]);
    for command in [
        "ls | rm -rf /",
        "ls; rm -rf /",
        "ls && rm -rf /",
        "echo $(rm -rf /)",
        "cat file > out.txt",
        "cat `whoami`",
    ] {
        assert!(
            matches!(tree.refuse(command, "/work"), PolicyError::ShellMetachar(_)),
            "expected metachar refusal for {command}"
        );
    }
}

#[test]
fn rejects_unknown_binary() {
    let tree = Tree::new(&["/work/a"]);
    assert_eq!(tree.refuse("rm -rf .", "/work"), PolicyError::NotAllowed("rm".into()));
    assert_eq!(tree.refuse("sed -i s/a/b/ f", "/work"), PolicyError::NotAllowed("sed".into()));
    // A path-qualified binary bypasses PATH lookup, so it is refused too.
    assert_eq!(tree.refuse("/bin/ls", "/work"), PolicyError::NotAllowed("/bin/ls".into()));
}

#[test]
fn rejects_denied_git_subcommand() {
    let tree = Tree::new(&["/work/a"]);
    assert_eq!(
        tree.refuse("git config --global user.name x", "/work"),
        PolicyError::DeniedSubcommand { bin: "git".into(), sub: "config".into() }
    );
    assert_eq!(
        tree.refuse("git push origin main", "/work"),
        PolicyError::DeniedSubcommand { bin: "git".into(), sub: "push".into() }
    );
    assert!(check_policy(&tokenize("git status --short").unwrap()).is_ok());
}

#[test]
fn rejects_find_delete() {
    let tree = Tree::new(&["/work/a"]);
    assert_eq!(
        tree.refuse("find . -name x -delete", "/work"),
        PolicyError::DeniedFlag { bin: "find".into(), flag: "-delete".into() }
    );
    assert_eq!(tree.refuse("find . -exec rm {} +", "/work"), PolicyError::ShellMetachar('{'));
}

#[test]
fn version_only_binaries_reject_other_args() {
    let tree = Tree::new(&["/work/a"]);
    assert_eq!(
        tree.refuse("python3 script.py", "/work"),
        PolicyError::DeniedSubcommand { bin: "python3".into(), sub: "script.py".into() }
    );
    assert_eq!(
        tree.refuse("npm install left-pad", "/work"),
        PolicyError::DeniedSubcommand { bin: "npm".into(), sub: "install".into() }
    );
    assert!(check_policy(&tokenize("python3 --version").unwrap()).is_ok());
}

#[test]
fn rejects_path_escape() {
    let tree = Tree::new(&["/work/sub/keep", "/work/outside.txt"]);
    assert_eq!(
        tree.refuse("cat ../secret.txt", "/work/sub"),
        PolicyError::PathNotFound { token: "../secret.txt".into(), similar: Vec::new() },
        "must not leak names from outside the root"
    );
    // An existing file outside the root is refused for being outside it.
    assert_eq!(
        tree.refuse("cat ../outside.txt", "/work/sub"),
        PolicyError::PathOutsideScope("../outside.txt".into())
    );
}

#[test]
fn rejects_symlink_escape() {
    let mut tree = Tree::new(&["/work/root/keep", "/elsewhere/target.txt"]);
    tree.links.push(("/work/root/link.txt", "/elsewhere/target.txt"));
    assert_eq!(
        tree.refuse("cat link.txt", "/work/root"),
        PolicyError::PathOutsideScope("link.txt".into())
    );
}

#[test]
fn rejects_secret_paths_inside_root() {
    let tree = Tree::new(&["/work/.ssh/id_rsa", "/work/server.pem"]);
    // Inside the allowed subtree, yet still refused.
    assert_eq!(
        tree.refuse("cat .ssh/id_rsa", "/work"),
        PolicyError::SecretPath(".ssh/id_rsa".into())
    );
    assert_eq!(
        tree.refuse("cat server.pem", "/work"),
        PolicyError::SecretPath("server.pem".into())
    );
}

#[test]
fn allows_paths_inside_root() {
    let tree = Tree::new(&["/work/notes.txt"]);
    let tokens = tokenize("cat notes.txt").unwrap();
    assert!(check_paths(&tokens, "/work", &tree.all_facts("/work", &tokens)).is_ok());
}

#[test]
fn allows_read_safe_global() {
    let tree = Tree::new(&["/work/a", "/etc/os-release"]);
    let tokens = tokenize("cat /etc/os-release").unwrap();
    assert!(check_paths(&tokens, "/work", &tree.all_facts("/work", &tokens)).is_ok());
}

#[test]
fn redacts_secret_env_vars() {
    let input = "HOME=/home/u\nAWS_SECRET_ACCESS_KEY=abc123\nGITHUB_TOKEN=ghp_x\nLANG=C\n";
    let out = redact_env_output(input);
    assert!(out.contains("HOME=/home/u"));
    assert!(out.contains("LANG=C"));
    assert!(out.contains("AWS_SECRET_ACCESS_KEY=<redacted>"));
    assert!(out.contains("GITHUB_TOKEN=<redacted>"));
    assert!(!out.contains("abc123"));
    assert!(!out.contains("ghp_x"));
    assert!(is_secret_env_key("my_password"));
    assert!(!is_secret_env_key("LANG"));
}

#[test]
fn runs_allowed_command_and_reports_exit_code() {
    let tree = Tree::new(&["/work/notes.txt"]);
    let out = tree.run("cat notes.txt", "/work", ended(true, 0, "hello world", ""));
    assert!(out.starts_with("$ cat notes.txt"), "{out}");
    assert!(out.contains("[exit 0]"), "{out}");
    assert!(out.contains("hello world"), "{out}");
}

#[test]
fn truncates_long_output() {
    let tree = Tree::new(&["/work/big.txt"]);
    let big = "x".repeat(50_000);
    let out = tree.run("cat big.txt", "/work", ended(true, 0, &big, ""));
    assert!(out.chars().count() < OUTPUT_BUDGET_CHARS + 200, "len {}", out.chars().count());
    assert!(out.contains("[truncated]"), "{out}");
}

#[test]
fn failed_command_suggests_similarly_named_entries() {
    let tree = Tree::new(&["/work/Videos/a", "/work/Music/b"]);
    // The user says "Movies"; the machine has "Videos".
    let out = tree.run("ls Movies", "/work", ended(false, 2, "", "No such file"));
    assert!(out.contains("[hint]"), "{out}");
    // "Movies" is not a misspelling of "Videos" — no lexical rule can link
    // them — so the hint must surface what is actually there instead.
    assert!(out.contains("Videos"), "{out}");
    assert!(out.contains("Music"), "{out}");
}

#[test]
fn case_mismatch_is_offered_as_a_suggestion() {
    let tree = Tree::new(&["/work/Videos/a"]);
    let out = tree.run("ls videos", "/work", ended(false, 2, "", "No such file"));
    assert!(out.contains("Videos"), "{out}");
}

#[test]
fn successful_command_has_no_hint() {
    let tree = Tree::new(&["/work/Videos/a"]);
    let out = tree.run("ls Videos", "/work", ended(true, 0, "a\n", ""));
    assert!(!out.contains("[hint]"), "{out}");
}

#[test]
fn missing_path_refusal_carries_suggestions() {
    let tree = Tree::new(&["/work/Videos/a"]);
    // A slash makes this a path candidate, so it is refused before running.
    let out = tree.run("ls ./Movies", "/work", RunOutcome::NotStarted);
    assert!(out.contains("Videos"), "{out}");
    assert!(out.contains("does not exist"), "{out}");
}

#[test]
fn suggestions_refuse_a_parent_outside_the_root() {
    let tree = Tree::new(&["/out/SecretProject/x", "/out/root/keep"]);
    // Target sits in the root's *parent*, which is out of scope.
    let facts = tree.facts("/out/root", "/out/Movies");
    assert!(
        suggestions_within_scope("/out/Movies", &facts, "/out/root").is_empty(),
        "must not list names from outside the root"
    );
    // The unguarded helper would happily have listed them.
    assert!(
        similar_entries("/out/Movies", &facts.names).contains(&"SecretProject".to_owned()),
        "precondition: the raw helper does list them, which is why the guard exists"
    );
}

#[test]
fn suggestions_refuse_a_secret_parent() {
    let tree = Tree::new(&["/work/.ssh/id_rsa"]);
    // Inside the root, but naming what lives in ~/.ssh is still a leak.
    let facts = tree.facts("/work", ".ssh/id_rsa_missing");
    assert!(suggestions_within_scope("/work/.ssh/id_rsa_missing", &facts, "/work").is_empty());
}

#[test]
fn failed_command_hint_never_names_files_outside_root() {
    let tree = Tree::new(&["/out/SIBLING_SECRET.txt", "/out/root/Videos/a"]);
    // Reaches the execute path: no slash, so it is not a path candidate.
    let out = tree.run("ls Movies", "/out/root", ended(false, 2, "", "No such file"));
    assert!(out.contains("Videos"), "in-scope names should still be offered: {out}");
    assert!(!out.contains("SIBLING_SECRET"), "leaked a name from outside the root: {out}");

    // And a path candidate pointing outside is refused with no listing.
    let out = tree.run("cat ../SIBLING_SECRET.txt", "/out/root", RunOutcome::NotStarted);
    assert!(!out.contains("SIBLING_SECRET.txt\n"), "leaked content: {out}");
    assert!(out.contains("outside the working directory"), "{out}");
}

#[test]
fn suggestions_skip_hidden_entries() {
    let hits = similar_entries("/work/movies", &texts(&[".moviecache"]));
    assert!(hits.is_empty(), "hidden entries should not be suggested: {hits:?}");
    assert_eq!(visible_entries(&texts(&[".a", "b"])), vec!["b"]);
}

#[test]
fn expands_leading_tilde_to_home() {
    let home = "/home/u";
    let out = expand_tildes(texts(&["ls", "-la", "~", "~/Videos", "not~here"]), Some(home));
    assert_eq!(out[0], "ls");
    assert_eq!(out[1], "-la");
    assert_eq!(out[2], home);
    assert_eq!(out[3], format!("{home}/Videos"));
    // A tilde that is not leading is an ordinary character.
    assert_eq!(out[4], "not~here");
}

#[test]
fn tilde_expansion_still_obeys_scope_and_secrets() {
    let tree = Tree::new(&["/work/a", "/home/u/.ssh/id_rsa"]);
    // ~ resolves outside the sandbox root, so scope still refuses it.
    let err = tree.refuse("ls ~", "/work");
    assert!(
        matches!(err, PolicyError::PathOutsideScope(_) | PolicyError::PathNotFound { .. }),
        "expected scope refusal, got {err:?}"
    );
    // And an expanded path into a secret directory is still refused.
    let err = tree.refuse("cat ~/.ssh/id_rsa", "/work");
    assert!(
        matches!(err, PolicyError::SecretPath(_) | PolicyError::PathNotFound { .. }),
        "expected secret refusal, got {err:?}"
    );
}

#[test]
fn kill_switch_disables_only_on_falsey_values() {
    // Unset means available — the tool is on by default.
    assert!(enabled_from(None));
    for off in ["0", "false", "off", "no", "OFF", " False "] {
        assert!(!enabled_from(Some(off)), "{off} should disable the tool");
    }
    for on in ["1", "true", "on", "yes", ""] {
        assert!(enabled_from(Some(on)), "{on} should leave the tool enabled");
    }
}

#[test]
fn empty_command_refused() {
    let tree = Tree::new(&["/work/a"]);
    assert_eq!(tree.refuse("   ", "/work"), PolicyError::Empty);
}

#[test]
fn refusals_render_as_readable_text() {
    let tree = Tree::new(&["/work/a"]);
    let message = tree.run("rm -rf /", "/work", RunOutcome::NotStarted);
    assert!(message.starts_with("run_command refused:"), "{message}");
    assert!(message.contains("read-only"), "{message}");
}

#[test]
fn a_refusal_does_not_depend_on_what_a_run_would_give() {
    let tree = Tree::new(&["/work/a"]);
    let refused = tree.run("rm -rf /", "/work", RunOutcome::NotStarted);
    assert_eq!(tree.run("rm -rf /", "/work", RunOutcome::TimedOut), refused);
    assert_eq!(tree.run("rm -rf /", "/work", ended(true, 0, "gone", "")), refused);
}

#[test]
fn failed_runs_are_told_apart() {
    let tree = Tree::new(&["/work/a"]);
    let not_started = tree.run("ls a", "/work", RunOutcome::NotStarted);
    let timed_out = tree.run("ls a", "/work", RunOutcome::TimedOut);
    assert_eq!(not_started, PolicyError::SpawnFailed("ls".into()).as_tool_message());
    assert_eq!(timed_out, PolicyError::TimedOut.as_tool_message());
    assert_ne!(not_started, timed_out);
}

#[test]
fn output_that_is_no_text_is_shown_with_replacements() {
    let tree = Tree::new(&["/work/a"]);
    let out = tree.run(
        "cat a",
        "/work",
        RunOutcome::Finished { success: true, code: Some(0), stdout: vec![b'o', 0xff], stderr: vec![] },
    );
    assert!(out.contains("o\u{fffd}"), "{out}");
}

#[test]
fn reports_name_the_command_and_its_exit() {
    let tokens = texts(&["ls", "-l"]);
    assert_eq!(format_report(&tokens, Some(0), "", "", ""), "$ ls -l\n[exit 0] (no output)");
    assert!(format_report(&tokens, None, "out", "", "").contains("[exit -1]"));
    assert_eq!(parse_command("ls -l").unwrap(), tokens);
}

#[test]
fn suggestions_are_capped() {
    let names: Vec<String> = (0..40).map(|i| format!("entry{i:02}")).collect();
    assert_eq!(similar_entries("/work/zzz", &names).len(), MAX_SUGGESTIONS);
}

#[test]
fn secret_places_and_path_arguments_are_recognised() {
    assert!(is_secret_path("/home/u/.ssh/config"));
    assert!(!is_secret_path("/home/u/notes.txt"));
    assert!(is_path_candidate("a/b", false));
    assert!(is_path_candidate("name", true));
    assert!(!is_path_candidate("name", false));
    assert!(!is_path_candidate("-l", false));
}

#[test]
fn the_root_is_the_working_directory_where_it_resolves() {
    assert_eq!(inspect_root("/w", Some("/real/w"), Some("/cur")).as_deref(), Some("/real/w"));
    assert_eq!(inspect_root("", None, Some("/cur")).as_deref(), Some("/cur"));
    let tree = Tree::new(&["/work/Videos/a"]);
    let tokens = texts(&["ls", "Movies"]);
    assert!(spelling_hint(&tokens, "/work", &tree.all_facts("/work", &tokens)).contains("Videos"));
}

fn policy_of(command: &str) -> Result<(), PolicyError> {
    check_policy(&tokenize(command).unwrap()).map(|_| ())
}

#[test]
fn no_argument_starts_another_binary() {
    assert_eq!(policy_of("env rm -rf notes"), Err(PolicyError::NotAllowed("rm".into())));
    assert_eq!(policy_of("env A=1 rm"), Err(PolicyError::NotAllowed("rm".into())));
    assert_eq!(policy_of("env A=1 -x"), Err(PolicyError::NotAllowed("-x".into())));
    assert_eq!(policy_of("env -- rm"), Err(PolicyError::NotAllowed("rm".into())));
    assert_eq!(policy_of("env -u A rm"), Err(PolicyError::NotAllowed("rm".into())));
    assert_eq!(policy_of("env - -u"), Err(PolicyError::NotAllowed("-u".into())));
    for refused in ["env -S 'rm x'", "env -iSrm", "env --split-string=rm", "env --sp=rm"] {
        assert!(matches!(policy_of(refused), Err(PolicyError::DeniedFlag { .. })), "{refused}");
    }
    for allowed in [
        "env",
        "env -i",
        "env -0",
        "env -i A=1 B=2",
        "env -u NAME",
        "env -uSHELL",
        "env -iu NAME A=1",
        "env --unset NAME",
        "env --uns NAME",
        "env -C src",
        "env -- A=1",
        "env - A=1",
    ] {
        assert_eq!(policy_of(allowed), Ok(()), "{allowed}");
    }
    for refused in [
        "find . -exec rm x",
        "rg --pre=cmd x",
        "rg -z x",
        "file -z a",
        "git ls-remote --upload-pack=cmd .",
        "git ls-remote --u=cmd .",
        "git --config-env=a=b log",
        "git log --ext-diff",
        "python3 -cprint --version",
        "python3 version",
        "node version",
        "cargo -v install x",
        "go build",
        "ollama -v rm x",
    ] {
        assert!(policy_of(refused).is_err(), "{refused}");
    }
    for allowed in [
        "python3 --version",
        "rustc --version --verbose",
        "cargo version",
        "go version",
        "go version -m tool",
        "ollama list",
        "ollama list x",
        "rg -tzsh foo",
        "rg -e -z foo",
        "rg --regexp -z foo",
        "rg -- -z",
        "file -m fuzz a",
        "file -mfuzz a",
        "git ls-remote --exit-code .",
        "git log -- --ext-diff",
    ] {
        assert_eq!(policy_of(allowed), Ok(()), "{allowed}");
    }
}

#[test]
fn arguments_that_change_the_machine_are_refused() {
    for refused in [
        "hostname box",
        "hostname -F name",
        "hostname --file=name",
        "date 010203042020",
        "date -u 010203042020",
        "date -s now",
        "date -us now",
        "date --se=now",
        "date -d -d 010203042020",
        "date -ud -d 010203042020",
        "tail -F a",
        "tail -5f a",
        "tail --fol a",
        "tree -o out",
        "tree -aoout",
        "file -C -m magic",
        "git branch -D main",
        "git branch topic",
        "git branch --sort --list topic",
        "git branch -m a b",
        "git tag v1",
        "git tag -d v1",
        "git tag -a v1",
        "git remote add origin url",
        "git remote -v update",
        "git diff --output=x",
        "hostname -- box",
        "hostname -",
        "date -R -d tomorrow 010203042020",
        "date 010203042020 -j",
        "git branch -vd topic",
        "git branch -v topic",
        "git branch --format --list topic",
        "git branch -- --list",
        "git branch --list --no-list topic",
        "git tag --sort v topic",
    ] {
        assert!(policy_of(refused).is_err(), "{refused}");
    }
    for allowed in [
        "hostname",
        "hostname -f",
        "date",
        "date +%Y",
        "date -u +%s",
        "date -d yesterday +%F",
        "date -Iseconds",
        "tail -n 5 a",
        "tree -L 2",
        "file a",
        "rg -ez x",
        "git branch",
        "git branch -avv",
        "git branch --list feature",
        "git branch --contains abc",
        "git branch --sort=-committerdate",
        "git tag",
        "git tag -l v1",
        "git tag -n3",
        "git remote",
        "git remote -v",
        "git remote show origin",
        "git remote get-url --push origin",
        "git --no-pager log --oneline",
        "git diff --stat",
        "hostname -I",
        "date -R -d tomorrow",
        "date -f dates",
        "date --date tomorrow -u",
        "date --dat tomorrow",
        "date -r notes +%s",
        "date -j -f %Y 2020 +%s",
        "tail -- -F",
        "tree -P -R",
        "git branch -va",
        "git branch -l",
        "git branch -l topic",
        "git branch topic --list",
        "git branch --sort -committerdate",
        "git branch --format %(refname)",
        "git branch --rem --verb",
        "git branch --show-current",
        "git tag --sort v",
        "git tag --sort -v:refname -ln2 v1",
        "git tag -n v1",
        "git ls-files --o",
    ] {
        assert_eq!(policy_of(allowed), Ok(()), "{allowed}");
    }
    assert_eq!(
        policy_of("git branch -D main"),
        Err(PolicyError::DeniedSubcommand { bin: "git".into(), sub: "branch -D".into() })
    );
}
