use qex::completions::{
    dynamic_part, options_that_take_a_value, remove_hidden, zsh_jobs, Argument, Shell, SubCommand,
};
use qex::help::{banner, cmd_help, cmd_schema, config, topic, topics, AGENTS, EXIT_USAGE};
use qex::summary::{config_summary, Enforcement, Values};

fn names(list: &[&str]) -> Vec<String> {
    list.iter().map(|s| s.to_string()).collect()
}

#[test]
fn every_listed_topic_has_a_text() {
    for t in topics() {
        assert!(topic(&t).is_some(), "{t}");
    }
    assert_eq!(topics().len(), 12);
    assert_eq!(topic(" AGENT ").as_deref(), Some(AGENTS));
    assert_eq!(topic("fan-out"), topic("each-line"));
    assert_eq!(topic("config"), Some(config()));
    assert!(config().starts_with("qex configuration\n"));
    assert!(config().contains("\nPools\n-----\n"));
    assert_eq!(config().len(), 21851);
    assert_eq!(topic("nothing"), None);
}

#[test]
fn the_banner_gives_the_length_of_the_page() {
    let text = banner();
    assert!(text.contains(&format!("It is {} lines", AGENTS.lines().count())));
    assert!(text.starts_with("  ==> AGENTS: run `qex help agents` first."));
    assert!(text.ends_with("The command `qex wait` does that work.\n"));
}

#[test]
fn a_wrong_topic_names_the_topics() {
    let page = cmd_help("nothing");
    assert_eq!(page.code, EXIT_USAGE);
    assert_eq!(page.out, "");
    assert_eq!(
        page.err,
        "qex: there is no help topic `nothing`.\n\nThe topics are: agents, job-file, config, \
         resources, states, events, output, exit-codes, pipeline, each-line, pause, abort\n\n\
         Agents: run `qex help agents`."
    );
    assert_eq!(cmd_help("agents").out, AGENTS);
}

#[test]
fn a_schema_is_named_or_listed() {
    let list = names(&["job", "status"]);
    assert_eq!(
        cmd_schema(None, None, &list).err,
        "qex: name a schema. The schemas are: job, status\n\nExample: qex schema job"
    );
    assert_eq!(
        cmd_schema(Some("x"), None, &list).err,
        "qex: there is no schema `x`. The schemas are: job, status"
    );
    let page = cmd_schema(Some("job"), Some("{}"), &list);
    assert_eq!((page.out.as_str(), page.code), ("{}", 0));
}

#[test]
fn the_hidden_commands_leave_the_completions() {
    let hidden = names(&["daemon", "__complete"]);
    let bash = "  opts=\"submit daemon run __complete\"\n  other daemon x";
    assert_eq!(
        remove_hidden(bash, &hidden, Shell::Bash),
        "  opts=\"submit run\"\n  other daemon x"
    );
    let zsh = "'submit:Submits'\n'daemon:Starts'\n'run:Runs'";
    assert_eq!(
        remove_hidden(zsh, &hidden, Shell::Zsh),
        "'submit:Submits'\n'run:Runs'"
    );
    let fish = "complete -a \"submit\"\ncomplete -a \"daemon\"";
    assert_eq!(
        remove_hidden(fish, &hidden, Shell::Fish),
        "complete -a \"submit\""
    );
    let elvish = "    cand daemon 'x'\n    cand submit 'y'";
    assert_eq!(
        remove_hidden(elvish, &hidden, Shell::Elvish),
        "    cand submit 'y'"
    );
    let ps = "[X]::new('daemon', 'daemon', 1)\n[X]::new('run', 'run', 1)";
    assert_eq!(
        remove_hidden(ps, &hidden, Shell::PowerShell),
        "[X]::new('run', 'run', 1)"
    );
    assert_eq!(remove_hidden(zsh, &hidden, Shell::Other), zsh);
    assert_eq!(remove_hidden("a\n", &Vec::new(), Shell::Zsh), "a\n");
}

fn arg(takes_values: bool, long: Option<&str>, aliases: &[&str], short: Option<char>) -> Argument {
    Argument {
        takes_values,
        long: long.map(String::from),
        aliases: names(aliases),
        short,
    }
}

#[test]
fn the_options_with_a_value_come_in_order_and_once() {
    let commands = vec![
        SubCommand {
            name: "kill".into(),
            arguments: vec![
                arg(true, Some("signal"), &["sig"], Some('s')),
                arg(false, Some("json"), &[], None),
            ],
        },
        SubCommand {
            name: "logs".into(),
            arguments: vec![
                arg(true, Some("tail"), &[], None),
                arg(true, Some("signal"), &[], None),
            ],
        },
        SubCommand {
            name: "submit".into(),
            arguments: vec![arg(true, Some("cpu"), &[], None)],
        },
    ];
    assert_eq!(
        options_that_take_a_value(&commands),
        names(&["--sig", "--signal", "--tail", "-s"])
    );
}

#[test]
fn the_jobs_part_asks_qex() {
    let bash = dynamic_part(Shell::Bash, "--signal --tail");
    assert!(bash.contains("case \" --signal --tail \" in *\" $prev \"*) return 0 ;; esac"));
    assert!(bash.contains("case \" status wait logs rerun clean \" in"));
    assert!(bash.contains("COMPREPLY[${#COMPREPLY[@]}]=\"$candidate\""));
    assert!(bash.contains("case \"$candidate\" in \"~\"*) candidate=\"\\\\$candidate\" ;; esac"));
    let fish = dynamic_part(Shell::Fish, "");
    assert!(fish.contains("__fish_seen_subcommand_from kill\" -f -a \"(qex __complete active)\""));
    assert_eq!(dynamic_part(Shell::Zsh, "x"), "");
    assert_eq!(dynamic_part(Shell::Elvish, "x"), "");
}

#[test]
fn the_job_arguments_of_zsh_offer_the_jobs() {
    let text = "#compdef qex\n\n(kill)\n'--signal=[The signal]:_default' \\\n\
                '*::ids -- The job ids to stop:_default' \\\n(submit)\n\
                '*::command:_default' \\\n(cancel)\n':id:_default' \\";
    let out = zsh_jobs(text, Shell::Zsh);
    let lines: Vec<&str> = out.split('\n').collect();
    assert_eq!(lines[0], "#compdef qex");
    assert!(out.contains("\n_qex_jobs() {\n    local -a candidates\n"));
    assert!(out.contains("\n'--signal=[The signal]:_default' \\\n"));
    assert!(out.contains("\n'*::ids -- The job ids to stop: _qex_jobs active' \\\n"));
    assert!(out.contains("\n'*::command:_default' \\\n"));
    assert!(out.ends_with("\n':id: _qex_jobs queued' \\\n"));
    assert_eq!(zsh_jobs(text, Shell::Bash), text);
}

fn values() -> Values {
    Values {
        path: "/h/.config/qex.toml".into(),
        present: false,
        cores: 8,
        memory: 32 << 30,
        budget_cpu: 6,
        budget_mem: 24 << 30,
        default_cpu: 1,
        default_mem: 2 << 30,
        default_timeout: None,
        reserve_mem: 1 << 30,
        log_max_bytes: Some(64 << 20),
        nice: 10,
        io: "idle".into(),
        oom_score_adj: -5,
        enforcement: Enforcement::Off,
        peers: "off".into(),
        oversized: "Refuse".into(),
        env_capture: "All".into(),
        env_none: false,
        export_env: true,
        also: vec![],
    }
}

#[test]
fn the_summary_shows_the_calculated_values() {
    assert_eq!(
        config_summary(&values()),
        "config file: /h/.config/qex.toml (absent; qex uses the default values)\n\
         \n\
         machine:      8 cores, 32GB\n\
         budget:       6 cores, 24GB\n\
         default job:  1 core(s), 2GB, no timeout\n\
         keep free:    1GB of memory\n\
         job output:   64MB for each stream of each job; qex keeps the first part and the last part\n\
         politeness:   nice 10; io idle, oom_score_adj -5 (Linux only)\n\
         enforcement:  off; the claims control the queue only\n\
         peers:        off\n\
         oversized:    Refuse\n\
         environment:  capture All\n\
         claim in job: yes, with --cpu and --mem together\n"
    );
    let mut v = values();
    v.present = true;
    v.default_timeout = Some(3600);
    v.log_max_bytes = None;
    v.enforcement = Enforcement::NotActive {
        mode: "Hard".into(),
        warning: "no cgroup".into(),
    };
    v.also = names(&["go", "java"]);
    let text = config_summary(&v);
    assert!(text.contains("qex.toml (read)\n"));
    assert!(text.contains(", timeout 1h\n"));
    assert!(text.contains("NO LIMIT; a job can fill the disk"));
    assert!(text.contains("enforcement:  Hard — NOT ACTIVE\n              no cgroup\n"));
    assert!(text.ends_with("together; also go, java\n"));
    v.env_none = true;
    assert!(config_summary(&v).contains("claim in job: no; [submit] env_capture = \"none\""));
    v.export_env = false;
    assert!(config_summary(&v).contains("claim in job: no; [claims] export_env = false"));
    v.enforcement = Enforcement::Active { mode: "Soft".into() };
    assert!(config_summary(&v).contains("enforcement:  Soft, active\n"));
}
