use buzz_desktop::templates::{
    agent_template_from_persona, find_managed_agent, list_agent_templates, persona_card_filename,
    save_agent_as_template, template_name, AgentTemplate, ManagedAgentRecord, PersonaRecord,
};

fn persona(id: &str, name: &str, active: bool) -> PersonaRecord {
    PersonaRecord {
        id: id.to_string(),
        display_name: name.to_string(),
        avatar_url: None,
        system_prompt: String::new(),
        runtime: None,
        model: None,
        provider: None,
        name_pool: Vec::new(),
        is_builtin: false,
        is_active: active,
        source_team: None,
        source_team_persona_slug: None,
        env_vars: Vec::new(),
        created_at: "2024-01-01T00:00:00Z".to_string(),
        updated_at: "2024-01-01T00:00:00Z".to_string(),
    }
}

fn builtin(id: &str, name: &str) -> AgentTemplate {
    AgentTemplate {
        id: id.to_string(),
        display_name: name.to_string(),
        avatar_url: None,
        system_prompt: String::new(),
        runtime: None,
        model: None,
        provider: None,
        is_builtin: true,
    }
}

fn agent(pubkey: &str, name: &str) -> ManagedAgentRecord {
    ManagedAgentRecord {
        pubkey: pubkey.to_string(),
        name: name.to_string(),
        persona_id: None,
        agent_command_override: None,
        avatar_url: Some("https://example.com/a.png".to_string()),
        system_prompt: Some("Be helpful.".to_string()),
        model: Some("model-x".to_string()),
        provider: None,
    }
}

fn ids(ts: &[AgentTemplate]) -> Vec<&str> {
    ts.iter().map(|t| t.id.as_str()).collect()
}

#[test]
fn catalog_lists_builtins_then_sorted_saved() {
    let builtins = vec![builtin("b-2", "Zed"), builtin("b-1", "Alpha")];
    let personas = vec![
        persona("p-3", "beta", true),
        persona("p-1", "Alpha", true),
        persona("b-1", "Shadow of a built-in", true),
        persona("p-2", "Gamma", false),
        persona("p-0", "alpha", true),
    ];
    let catalog = list_agent_templates(builtins, &personas);
    assert_eq!(ids(&catalog), vec!["b-2", "b-1", "p-0", "p-1", "p-3"]);
    assert!(catalog[0].is_builtin);
    assert!(!catalog[2].is_builtin);
}

#[test]
fn catalog_order_matches_original_sort() {
    let names = ["b", "B", "a", "Ä", "ä", "Z", "z", "é", "E"];
    let personas: Vec<PersonaRecord> = names
        .iter()
        .enumerate()
        .map(|(i, n)| persona(&format!("id-{}", 9 - i), n, true))
        .collect();
    let mut expected: Vec<AgentTemplate> =
        personas.iter().map(agent_template_from_persona).collect();
    expected.sort_by(|a, b| {
        a.display_name
            .to_lowercase()
            .cmp(&b.display_name.to_lowercase())
            .then_with(|| a.id.cmp(&b.id))
    });
    let catalog = list_agent_templates(Vec::new(), &personas);
    assert_eq!(ids(&catalog), ids(&expected));
}

#[test]
fn finding_agents() {
    let records = vec![agent("npub1", "One"), agent("npub2", "Two")];
    assert_eq!(find_managed_agent(&records, "npub2"), Ok(1));
    assert_eq!(
        find_managed_agent(&records, "npub9"),
        Err("agent npub9 not found".to_string())
    );
}

#[test]
fn template_names() {
    assert_eq!(template_name(&agent("k", "  Research Bot ")), Ok("Research Bot".to_string()));
    assert_eq!(
        template_name(&agent("k", " \t ")),
        Err("agent has no name to save as a template".to_string())
    );
}

#[test]
fn saving_twice_updates_in_place() {
    let record = agent("k", "Research Bot");
    let mut personas = vec![persona("p-1", "Other", true)];
    let name = template_name(&record).unwrap();
    let (i, t) = save_agent_as_template(
        &mut personas,
        name.clone(),
        &record,
        Some("goose".to_string()),
        "2025-01-01T00:00:00Z".to_string(),
    );
    assert_eq!(i, 1);
    assert_eq!(personas.len(), 2);
    let saved = &personas[1];
    assert_eq!(saved.id.len(), 36);
    assert_eq!(&saved.id[14..15], "4");
    assert_eq!(saved.display_name, "Research Bot");
    assert_eq!(saved.system_prompt, "Be helpful.");
    assert_eq!(saved.runtime.as_deref(), Some("goose"));
    assert_eq!(saved.model.as_deref(), Some("model-x"));
    assert!(saved.is_active && !saved.is_builtin && saved.env_vars.is_empty());
    assert_eq!(saved.created_at, "2025-01-01T00:00:00Z");
    assert_eq!(t.id, saved.id);
    let first_id = saved.id.clone();

    let mut again = agent("k", "research bot");
    again.system_prompt = None;
    let name = template_name(&again).unwrap();
    let (j, t2) =
        save_agent_as_template(&mut personas, name, &again, None, "2025-02-01T00:00:00Z".to_string());
    assert_eq!(j, 1);
    assert_eq!(personas.len(), 2);
    assert_eq!(personas[1].id, first_id);
    assert_eq!(personas[1].display_name, "research bot");
    assert_eq!(personas[1].system_prompt, "");
    assert_eq!(personas[1].runtime, None);
    assert_eq!(personas[1].created_at, "2025-01-01T00:00:00Z");
    assert_eq!(personas[1].updated_at, "2025-02-01T00:00:00Z");
    assert_eq!(t2.display_name, "research bot");
}

#[test]
fn team_templates_are_not_overwritten() {
    let record = agent("k", "Helper");
    let mut team = persona("t-1", "helper", true);
    team.source_team = Some("team".to_string());
    let mut personas = vec![team, persona("old", "Helper", false)];
    let (i, _) =
        save_agent_as_template(&mut personas, "Helper".to_string(), &record, None, "now".to_string());
    assert_eq!(i, 2);
    assert_eq!(personas.len(), 3);
    assert_eq!(personas[0].display_name, "helper");
}

#[test]
fn existing_env_vars_are_kept_and_never_added() {
    let record = agent("k", "Helper");
    let mut existing = persona("p", " HELPER ", true);
    existing.env_vars = vec![("TOKEN".to_string(), "x".to_string())];
    let mut personas = vec![existing];
    let (i, _) =
        save_agent_as_template(&mut personas, "Helper".to_string(), &record, None, "now".to_string());
    assert_eq!(i, 0);
    assert_eq!(personas[0].env_vars.len(), 1);
}

#[test]
fn card_filename() {
    assert_eq!(persona_card_filename("research-bot"), "research-bot.persona.json");
}

#[test]
fn saved_template_appears_in_catalog() {
    let record = agent("k", "Research Bot");
    let mut personas = vec![persona("p-1", "Zeta", true), persona("p-2", "Alpha", false)];
    let name = template_name(&record).unwrap();
    let (_, t) = save_agent_as_template(&mut personas, name, &record, None, "now".to_string());
    let builtins = vec![builtin("b-1", "Builtin")];
    let catalog = list_agent_templates(builtins, &personas);
    assert!(catalog[1..].iter().any(|x| x.id == t.id));
}
