use qex::pipeline::{error, format_for, stage_spec, Format, PipelineFile, Resources, Stage};

fn texts(v: Option<&toml::Value>) -> Vec<String> {
    v.and_then(|v| v.as_array())
        .map(|a| {
            a.iter()
                .map(|x| x.as_str().unwrap().to_string())
                .collect()
        })
        .unwrap_or_default()
}

fn stage(t: &toml::Value) -> Stage {
    Stage {
        name: t
            .get("name")
            .and_then(|v| v.as_str())
            .unwrap_or("")
            .to_string(),
        cwd: None,
        command: texts(t.get("command")),
        timeout: None,
        tags: texts(t.get("tags")),
        priority: None,
        env_capture: None,
        needs: texts(t.get("needs")),
        after: texts(t.get("after")),
        resources: Resources {
            cpu: None,
            mem: None,
        },
        env: vec![],
    }
}

fn file(text: &str) -> Result<PipelineFile, String> {
    let table: toml::Table = toml::from_str(text).map_err(|e| e.to_string())?;
    let jobs = table
        .get("jobs")
        .and_then(|v| v.as_array())
        .map(|a| a.iter().map(stage).collect())
        .unwrap_or_default();
    let parsed = PipelineFile { name: None, jobs };
    parsed.validate()?;
    Ok(parsed)
}

#[test]
fn a_file_with_stages_in_order_is_accepted() {
    let p = file(
        r#"
[[jobs]]
name = "build"
command = ["make"]

[[jobs]]
name = "test"
command = ["make", "test"]
needs = ["build"]
"#,
    )
    .unwrap();
    assert_eq!(p.jobs.len(), 2);

    // The order puts a stage after the stages that it waits for.
    let order = p.order().unwrap();
    let names: Vec<&str> = order.iter().map(|i| p.jobs[*i].name.as_str()).collect();
    assert_eq!(names, vec!["build", "test"]);
}

#[test]
fn the_stages_can_come_in_any_order_in_the_file() {
    let p = file(
        r#"
[[jobs]]
name = "ship"
command = ["true"]
needs = ["test"]

[[jobs]]
name = "test"
command = ["true"]
needs = ["build"]

[[jobs]]
name = "build"
command = ["true"]
"#,
    )
    .unwrap();
    let order = p.order().unwrap();
    let names: Vec<&str> = order.iter().map(|i| p.jobs[*i].name.as_str()).collect();
    assert_eq!(names, vec!["build", "test", "ship"]);
}

#[test]
fn a_circle_of_stages_is_refused() {
    let err = file(
        r#"
[[jobs]]
name = "a"
command = ["true"]
needs = ["b"]

[[jobs]]
name = "b"
command = ["true"]
needs = ["a"]
"#,
    )
    .unwrap_err()
    .to_string();

    assert!(err.contains("circle"), "got: {err}");
    assert!(
        err.contains("a") && err.contains("b"),
        "the error must name the stages: {err}"
    );
    assert_eq!(
        err,
        "the stages make a circle: a -> b -> a. A stage cannot wait for itself, and no stage can \
         start."
    );
}

#[test]
fn a_stage_that_waits_for_itself_is_refused() {
    let err = file(
        r#"
[[jobs]]
name = "a"
command = ["true"]
needs = ["a"]
"#,
    )
    .unwrap_err()
    .to_string();
    assert!(err.contains("circle"), "got: {err}");
}

#[test]
fn a_dependency_on_a_stage_that_does_not_exist_is_refused() {
    let err = file(
        r#"
[[jobs]]
name = "test"
command = ["true"]
needs = ["build"]
"#,
    )
    .unwrap_err()
    .to_string();
    assert!(err.contains("no stage with that name"), "got: {err}");
    assert!(err.contains("test"), "the error must list the stages: {err}");
}

#[test]
fn two_stages_with_one_name_are_refused() {
    let err = file(
        r#"
[[jobs]]
name = "build"
command = ["true"]

[[jobs]]
name = "build"
command = ["false"]
"#,
    )
    .unwrap_err()
    .to_string();
    assert!(err.contains("two stages"), "got: {err}");
}

#[test]
fn a_stage_needs_a_name_and_a_command() {
    assert!(file("[[jobs]]\ncommand = [\"true\"]\n")
        .unwrap_err()
        .to_string()
        .contains("needs a name"));
    assert!(file("[[jobs]]\nname = \"a\"\n")
        .unwrap_err()
        .to_string()
        .contains("no command"));
    assert!(file("").unwrap_err().to_string().contains("no stage"));
}

#[test]
fn a_stage_name_with_the_form_of_an_id_is_refused() {
    let err = file(
        r#"
[[jobs]]
name = "550e8400-e29b-41d4-a716-446655440000"
command = ["true"]
"#,
    )
    .unwrap_err()
    .to_string();
    assert!(err.contains("form of a job id"), "got: {err}");
}

#[test]
fn a_diamond_gives_a_correct_order() {
    let p = file(
        r#"
[[jobs]]
name = "a"
command = ["true"]

[[jobs]]
name = "b"
command = ["true"]
needs = ["a"]

[[jobs]]
name = "c"
command = ["true"]
needs = ["a"]

[[jobs]]
name = "d"
command = ["true"]
needs = ["b", "c"]
"#,
    )
    .unwrap();

    let order = p.order().unwrap();
    let names: Vec<&str> = order.iter().map(|i| p.jobs[*i].name.as_str()).collect();
    let position = |n: &str| names.iter().position(|x| *x == n).unwrap();
    assert!(position("a") < position("b"));
    assert!(position("a") < position("c"));
    assert!(position("b") < position("d"));
    assert!(position("c") < position("d"));
}

/// Each form in which the uuid crate reads an id is refused as a name, and a
/// text that only looks like one is not.
#[test]
fn every_form_of_an_id_is_refused_as_a_name() {
    let one = |name: &str| {
        file(&format!(
            "[[jobs]]\nname = \"{name}\"\ncommand = [\"true\"]\n"
        ))
    };
    for name in [
        "550e8400e29b41d4a716446655440000",
        "550E8400-E29B-41D4-A716-446655440000",
        "{550e8400-e29b-41d4-a716-446655440000}",
        "urn:uuid:550e8400-e29b-41d4-a716-446655440000",
    ] {
        assert!(
            one(name).unwrap_err().contains("form of a job id"),
            "{name}"
        );
        assert!(name.parse::<uuid::Uuid>().is_ok(), "{name}");
    }
    for name in [
        "550e8400-e29b-41d4-a716-44665544000",
        "550e8400_e29b_41d4_a716_446655440000",
        "build",
    ] {
        assert!(one(name).is_ok(), "{name}");
        assert!(name.parse::<uuid::Uuid>().is_err(), "{name}");
    }
}

#[test]
fn an_after_counts_as_a_wait() {
    let p = file(
        "[[jobs]]\nname = \"x\"\ncommand = [\"t\"]\nafter = [\"y\"]\n\
         [[jobs]]\nname = \"y\"\ncommand = [\"t\"]\n",
    )
    .unwrap();
    assert_eq!(p.order().unwrap(), vec![1, 0]);
    let err = file("[[jobs]]\nname = \"x\"\ncommand = [\"t\"]\nafter = [\"z\"]\n").unwrap_err();
    assert_eq!(
        err,
        "the stage `x` waits for `z`, and this file has no stage with that name. A stage can \
         wait for the stages of its own file only.\n\nThe stages of this file are: x"
    );
}

#[test]
fn the_extension_selects_the_format() {
    assert_eq!(format_for("ci.yaml"), Format::Yaml);
    assert_eq!(format_for("a/ci.YML"), Format::Yaml);
    assert_eq!(format_for("ci.json"), Format::Json);
    assert_eq!(format_for("ci.toml"), Format::Toml);
    assert_eq!(format_for("ci"), Format::Toml);
}

#[test]
fn a_wrong_file_shows_the_form() {
    let text = error("ci.toml", "line 3");
    assert!(text.starts_with("incorrect pipeline file ci.toml: line 3\n\nA pipeline file has"));
    assert!(text.contains("    needs = [\"build\"]\n"));
    assert!(text.ends_with("For every field, run `qex help pipeline`."));
}

#[test]
fn a_stage_becomes_a_job_of_its_group() {
    let p = file("[[jobs]]\nname = \"x\"\ncommand = [\"t\", \"1\"]\ntags = [\"ci\"]\n").unwrap();
    let spec = stage_spec(&p.jobs[0], 9, "ci");
    assert_eq!(spec.name, "x");
    assert_eq!(spec.command, vec!["t", "1"]);
    assert_eq!(spec.tags, vec!["ci"]);
    assert_eq!(spec.group, 9);
    assert_eq!(spec.group_name, "ci");
    assert!(spec.needs.is_empty() && spec.after.is_empty());
}
