use code2prompt::template::{
    extract_undefined_variables, finish_render, handle_undefined_variables, handlebars_setup,
    render_template, RenderContext, TemplateError,
};
use code2prompt::walk::FileRecord;

fn list(items: &[&str]) -> Vec<String> {
    items.iter().map(|s| s.to_string()).collect()
}

fn context() -> RenderContext {
    RenderContext::new(
        "proj".to_string(),
        "proj\n└── a.rs\n".to_string(),
        vec![FileRecord {
            path: "/p/a.rs".to_string(),
            extension: "rs".to_string(),
            code: "```rs\nfn a() -> &'static str { \"<a & b>\" }\n```".to_string(),
            relative: "a.rs".to_string(),
        }],
        "DIFF".to_string(),
        String::new(),
        String::new(),
    )
}

#[test]
fn variables_are_found_in_order() {
    assert_eq!(
        extract_undefined_variables("{{ title }} and {{author}} {{  title\t}}"),
        list(&["title", "author", "title"])
    );
}

#[test]
fn reserved_names_are_left_out() {
    assert_eq!(
        extract_undefined_variables("{{path}} {{code}} {{git_diff}} {{source_tree}}"),
        list(&["source_tree"])
    );
}

#[test]
fn only_plain_variables_count() {
    assert_eq!(
        extract_undefined_variables("{{#each files}}{{/each}} {{ 9x }} {{a.b}} {{a b}} { {x} } {{{y}}"),
        list(&["y"])
    );
    assert_eq!(extract_undefined_variables(""), Vec::<String>::new());
    assert_eq!(extract_undefined_variables("{{_ok9}}"), list(&["_ok9"]));
}

#[test]
fn variables_agree_with_the_regular_expression() {
    let re = regex::Regex::new(r"\{\{\s*(?P<var>[a-zA-Z_][a-zA-Z_0-9]*)\s*\}\}").unwrap();
    let reserved = ["path", "code", "git_diff"];
    let samples = [
        "{{a}}{{b}}",
        "{{{a}}}",
        "{{ a }} {{ b\n}} {{c d}} {{e}",
        "{{{{x}}}}",
        "{{ path }}{{x}}{{code}}",
        "text {{\u{a0}nb\u{2003}}} {{é}} {{a1_}}",
        "{{a}{{b}}",
        "{ {a} } {{}} {{ }} {{_}}",
        "{{#if x}}{{y}}{{/if}}",
    ];
    for s in samples {
        let expected: Vec<String> = re
            .captures_iter(s)
            .map(|c| c["var"].to_string())
            .filter(|v| !reserved.contains(&v.as_str()))
            .collect();
        assert_eq!(extract_undefined_variables(s), expected);
    }
}

#[test]
fn context_knows_its_keys() {
    let mut data = context();
    for key in [
        "absolute_code_path",
        "source_tree",
        "files",
        "git_diff",
        "git_diff_branch",
        "git_log_branch",
    ] {
        assert!(data.contains_key(key));
    }
    assert!(!data.contains_key("title"));
    data.define("title", "T");
    assert!(data.contains_key("title"));
    data.define("title", "U");
    assert_eq!(data.extras, vec![("title".to_string(), "U".to_string())]);
    data.define("files", "nothing");
    assert_eq!(data.extras.len(), 1);
    assert_eq!(data.files.len(), 1);
}

#[test]
fn undefined_variables_are_asked_for() {
    let mut data = context();
    let template = "{{absolute_code_path}} {{project_name}} {{author}} {{project_name}}";
    assert_eq!(
        data.undefined_variables(template),
        list(&["project_name", "author", "project_name"])
    );
    let asked = std::cell::RefCell::new(Vec::new());
    handle_undefined_variables(&mut data, template, |name: &str| {
        asked.borrow_mut().push(name.to_string());
        format!("{}-{}", name, asked.borrow().len())
    });
    assert_eq!(
        asked.into_inner(),
        list(&["project_name", "author", "project_name"])
    );
    assert_eq!(
        data.extras,
        vec![
            ("project_name".to_string(), "project_name-3".to_string()),
            ("author".to_string(), "author-2".to_string())
        ]
    );
    assert_eq!(data.undefined_variables(template), Vec::<String>::new());
}

#[test]
fn context_as_json_text() {
    let mut data = RenderContext::new(
        "p".to_string(),
        "t\n".to_string(),
        vec![
            FileRecord {
                path: "a\\b".to_string(),
                extension: String::new(),
                code: "say \"hi\"\t\u{1}".to_string(),
                relative: "a".to_string(),
            },
            FileRecord {
                path: "c".to_string(),
                extension: "rs".to_string(),
                code: "é\r".to_string(),
                relative: "c".to_string(),
            },
        ],
        String::new(),
        "d".to_string(),
        "l".to_string(),
    );
    data.define("who", "me");
    let expected = [
        "{\"absolute_code_path\":\"p\",\"source_tree\":\"t\\n\",\"files\":[",
        "{\"path\":\"a\\\\b\",\"extension\":\"\",\"code\":\"say \\\"hi\\\"\\t\\u0001\"},",
        "{\"path\":\"c\",\"extension\":\"rs\",\"code\":\"é\\r\"}],",
        "\"git_diff\":\"\",\"git_diff_branch\":\"d\",\"git_log_branch\":\"l\",\"who\":\"me\"}",
    ]
    .join("");
    assert_eq!(data.to_json(), expected);
}

#[test]
fn json_text_denotes_the_context() {
    let mut data = context();
    data.define("note", "line1\nline2 \u{7f} \u{0} \u{1f} \u{2028} 🎉");
    let value: serde_json::Value = serde_json::from_str(&data.to_json()).unwrap();
    assert_eq!(value["absolute_code_path"], "proj");
    assert_eq!(value["source_tree"], "proj\n└── a.rs\n");
    assert_eq!(value["git_diff"], "DIFF");
    assert_eq!(value["git_diff_branch"], "");
    assert_eq!(value["git_log_branch"], "");
    assert_eq!(value["note"], "line1\nline2 \u{7f} \u{0} \u{1f} \u{2028} 🎉");
    let files = value["files"].as_array().unwrap();
    assert_eq!(files.len(), 1);
    assert_eq!(files[0]["path"], "/p/a.rs");
    assert_eq!(files[0]["extension"], "rs");
    assert_eq!(files[0]["code"], data.files[0].code.as_str());
    assert_eq!(files[0].as_object().unwrap().len(), 3);
    assert_eq!(value.as_object().unwrap().len(), 7);
}

#[test]
fn every_control_character_is_escaped_validly() {
    let mut all = String::new();
    for u in 0u32..0x80 {
        all.push(char::from_u32(u).unwrap());
    }
    let mut data = context();
    data.define("all", &all);
    let value: serde_json::Value = serde_json::from_str(&data.to_json()).unwrap();
    assert_eq!(value["all"], all.as_str());
}

#[test]
fn template_is_rendered_without_escaping_and_trimmed() {
    let template = "\n  Project: {{absolute_code_path}}\n{{#each files}}{{path}}:\n{{code}}\n{{/each}}{{git_diff}}\n\n";
    let engine = handlebars_setup(template, "default").ok().unwrap();
    let out = render_template(&engine, "default", &context()).ok().unwrap();
    assert_eq!(
        out,
        "Project: proj\n/p/a.rs:\n```rs\nfn a() -> &'static str { \"<a & b>\" }\n```\nDIFF"
    );
}

#[test]
fn prompted_variable_with_empty_answer_renders_as_nothing() {
    let template = "[{{project_name}}] {{absolute_code_path}}";
    let engine = handlebars_setup(template, "custom").ok().unwrap();
    let mut data = context();
    let mut asked = 0;
    let counter = std::cell::Cell::new(0);
    handle_undefined_variables(&mut data, template, |_name: &str| {
        counter.set(counter.get() + 1);
        String::new()
    });
    asked += counter.get();
    assert_eq!(asked, 1);
    assert_eq!(
        render_template(&engine, "custom", &data).ok().unwrap(),
        "[] proj"
    );
}

#[test]
fn answered_variable_is_filled_in() {
    let template = "{{ greeting }}, {{absolute_code_path}}!";
    let engine = handlebars_setup(template, "custom").ok().unwrap();
    let mut data = context();
    handle_undefined_variables(&mut data, template, |_name: &str| "Hello <world>".to_string());
    assert_eq!(
        render_template(&engine, "custom", &data).ok().unwrap(),
        "Hello <world>, proj!"
    );
}

#[test]
fn broken_template_is_a_register_error() {
    match handlebars_setup("{{#each files}} never closed", "t") {
        Err(TemplateError::Register(detail)) => {
            assert!(!detail.is_empty());
            let e = TemplateError::Register(detail.clone());
            assert_eq!(e.message(), format!("Failed to register template: {}", detail));
        }
        _ => panic!("the template must be refused"),
    }
}

#[test]
fn unknown_template_is_a_render_error() {
    let engine = handlebars_setup("x", "known").ok().unwrap();
    match render_template(&engine, "unknown", &context()) {
        Err(TemplateError::Render(detail)) => {
            let e = TemplateError::Render(detail.clone());
            assert_eq!(e.message(), format!("Failed to render template: {}", detail));
        }
        _ => panic!("rendering must fail"),
    }
}

#[test]
fn engine_answer_is_trimmed_or_passed_on_as_error() {
    assert_eq!(
        finish_render(Ok("\n  text \t\n".to_string())).ok().unwrap(),
        "text"
    );
    assert_eq!(finish_render(Ok("   ".to_string())).ok().unwrap(), "");
    match finish_render(Err("boom".to_string())) {
        Err(TemplateError::Render(detail)) => assert_eq!(detail, "boom"),
        _ => panic!("an error must stay an error"),
    }
}

#[test]
fn templates_with_partials_are_refused() {
    for template in [
        "{{#if source_tree}}{{> custom}}{{/if}}",
        "{{> custom}}",
        "{{~> other}}",
        "{{#> layout}}body{{/layout}}",
        "{{ \n#\t> x}}",
        "a {{#*inline \"x\"}}y{{/inline}}{{> x}}",
    ] {
        match handlebars_setup(template, "custom") {
            Err(TemplateError::Partial) => {}
            _ => panic!("a template with a partial must be refused"),
        }
        assert!(code2prompt::template::includes_partial(template));
    }
    assert_eq!(
        TemplateError::Partial.message(),
        "Failed to register template: partials are not supported"
    );
    for template in ["{{a}} > {{b}}", "{{#if a}}>{{/if}}", "{ {> x}}", "{{{a}}} -> x", ""] {
        assert!(!code2prompt::template::includes_partial(template));
        assert!(handlebars_setup(template, "custom").is_ok());
    }
}
