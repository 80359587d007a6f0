//! Agent templates: the catalog shown by the Create Agent wizard, saving a
//! managed agent as a reusable template, and the name of an exported card.
use vstd::prelude::*;

use vstd::string::StringSliceAdditionalSpecFns;
use vstd::utf8::encode_utf8;

use crate::pkce::{is_uuid_v4_hyphenated, new_uuid_hyphenated};
use crate::spotify::opt_view;
use crate::text::{
    ascii_fold, bytes_lt, eq_ignore_ascii_case, eq_ignore_ascii_case_spec,
    lemma_bytes_lt_irreflexive, lemma_bytes_lt_total, lemma_bytes_lt_transitive, lowercase, str_eq,
    text_lt, to_lowercase, trim, trim_spec,
};

verus! {

/// A managed agent as the app stores it, with the fields that templates and
/// exported cards are made from.
pub struct ManagedAgentRecord {
    pub pubkey: String,
    pub name: String,
    pub persona_id: Option<String>,
    pub agent_command_override: Option<String>,
    pub avatar_url: Option<String>,
    pub system_prompt: Option<String>,
    pub model: Option<String>,
    pub provider: Option<String>,
}

/// A persona record: a saved template, synced through the relay.
pub struct PersonaRecord {
    pub id: String,
    pub display_name: String,
    pub avatar_url: Option<String>,
    pub system_prompt: String,
    pub runtime: Option<String>,
    pub model: Option<String>,
    pub provider: Option<String>,
    pub name_pool: Vec<String>,
    pub is_builtin: bool,
    pub is_active: bool,
    pub source_team: Option<String>,
    pub source_team_persona_slug: Option<String>,
    pub env_vars: Vec<(String, String)>,
    pub created_at: String,
    pub updated_at: String,
}

/// A starter in the Create Agent wizard's catalog.
pub struct AgentTemplate {
    pub id: String,
    pub display_name: String,
    pub avatar_url: Option<String>,
    pub system_prompt: String,
    pub runtime: Option<String>,
    pub model: Option<String>,
    pub provider: Option<String>,
    pub is_builtin: bool,
}

/// A copy of an optional string.
pub fn clone_opt(o: &Option<String>) -> (r: Option<String>)
    ensures
        r == *o,
{
    match o {
        Some(s) => Some(s.clone()),
        None => None,
    }
}

/// The catalog entry of a persona.
pub open spec fn template_of(p: PersonaRecord) -> AgentTemplate {
    AgentTemplate {
        id: p.id,
        display_name: p.display_name,
        avatar_url: p.avatar_url,
        system_prompt: p.system_prompt,
        runtime: p.runtime,
        model: p.model,
        provider: p.provider,
        is_builtin: p.is_builtin,
    }
}

/// The catalog entry of a persona record.
pub fn agent_template_from_persona(p: &PersonaRecord) -> (t: AgentTemplate)
    ensures
        t == template_of(*p),
{
    AgentTemplate {
        id: p.id.clone(),
        display_name: p.display_name.clone(),
        avatar_url: clone_opt(&p.avatar_url),
        system_prompt: p.system_prompt.clone(),
        runtime: clone_opt(&p.runtime),
        model: clone_opt(&p.model),
        provider: clone_opt(&p.provider),
        is_builtin: p.is_builtin,
    }
}

/// The index of the first record with the given public key.
pub open spec fn first_agent(records: Seq<ManagedAgentRecord>, pubkey: Seq<char>, i: int) -> bool {
    0 <= i < records.len() && records[i].pubkey@ == pubkey && forall|j: int|
        0 <= j < i ==> #[trigger] records[j].pubkey@ != pubkey
}

/// Finds the managed agent with public key `pubkey`.
pub fn find_managed_agent(records: &Vec<ManagedAgentRecord>, pubkey: &str) -> (r: Result<
    usize,
    String,
>)
    ensures
        match r {
            Ok(i) => first_agent(records@, pubkey@, i as int),
            Err(e) => (forall|j: int| 0 <= j < records@.len() ==> #[trigger] records@[j].pubkey@
                != pubkey@) && e@ == "agent "@ + pubkey@ + " not found"@,
        },
{
    let mut i: usize = 0;
    while i < records.len()
        invariant
            i <= records@.len(),
            forall|j: int| 0 <= j < i ==> #[trigger] records@[j].pubkey@ != pubkey@,
        decreases records@.len() - i,
    {
        if str_eq(records[i].pubkey.as_str(), pubkey) {
            return Ok(i);
        }
        i = i + 1;
    }
    let mut e = "agent ".to_owned();
    e.append(pubkey);
    e.append(" not found");
    Err(e)
}

/// The name a managed agent is saved under: its name, trimmed; an agent
/// whose name is blank cannot be saved.
pub fn template_name(record: &ManagedAgentRecord) -> (r: Result<String, String>)
    ensures
        match r {
            Ok(n) => n@ == trim_spec(record.name@) && n@.len() > 0,
            Err(e) => trim_spec(record.name@).len() == 0 && e@
                == "agent has no name to save as a template"@,
        },
{
    let name = trim(record.name.as_str());
    if name.unicode_len() == 0 {
        Err("agent has no name to save as a template".to_owned())
    } else {
        Ok(name.to_owned())
    }
}

/// The file name of an exported persona card.
pub fn persona_card_filename(slug: &str) -> (r: String)
    ensures
        r@ == slug@ + ".persona.json"@,
{
    let mut r = slug.to_owned();
    r.append(".persona.json");
    r
}

/// The text of an optional string, empty when there is none.
pub open spec fn text_or_empty(o: Option<String>) -> Seq<char> {
    match o {
        Some(s) => s@,
        None => seq![],
    }
}

/// `p` is an active in-app template (not one that came with a team) whose
/// display name, trimmed, equals `name` ignoring ASCII case.
pub open spec fn is_template_named(p: PersonaRecord, name: Seq<char>) -> bool {
    p.is_active && p.source_team is None && eq_ignore_ascii_case_spec(trim_spec(p.display_name@), name)
}

/// `p` carries the agent's pinned configuration, saved under `name` at `now`.
pub open spec fn carries_record(
    p: PersonaRecord,
    name: Seq<char>,
    record: ManagedAgentRecord,
    runtime: Option<Seq<char>>,
    now: Seq<char>,
) -> bool {
    &&& p.display_name@ == name
    &&& p.avatar_url == record.avatar_url
    &&& p.system_prompt@ == text_or_empty(record.system_prompt)
    &&& opt_view(p.runtime) == runtime
    &&& p.model == record.model
    &&& p.provider == record.provider
    &&& p.updated_at@ == now
}

/// `new` keeps what `old` was: its id, name pool, origin, activity,
/// environment variables and creation time.
pub open spec fn keeps_identity(new: PersonaRecord, old: PersonaRecord) -> bool {
    &&& new.id == old.id
    &&& new.name_pool == old.name_pool
    &&& new.is_builtin == old.is_builtin
    &&& new.is_active == old.is_active
    &&& new.source_team == old.source_team
    &&& new.source_team_persona_slug == old.source_team_persona_slug
    &&& new.env_vars == old.env_vars
    &&& new.created_at == old.created_at
}

/// `p` is a new in-app template created at `now`: a fresh random id, no
/// name pool, no environment variables, active, of no team.
pub open spec fn is_fresh_template(p: PersonaRecord, now: Seq<char>) -> bool {
    &&& is_uuid_v4_hyphenated(p.id@)
    &&& p.name_pool@.len() == 0
    &&& !p.is_builtin
    &&& p.is_active
    &&& p.source_team is None
    &&& p.source_team_persona_slug is None
    &&& p.env_vars@.len() == 0
    &&& p.created_at@ == now
}

/// Saving an agent under `name` turned the personas `old` into `new`, the
/// saved persona standing at `i`: the first active in-app template of that
/// name is updated in place, and if there is none a new one is appended.
pub open spec fn save_outcome(
    old: Seq<PersonaRecord>,
    new: Seq<PersonaRecord>,
    i: int,
    name: Seq<char>,
    record: ManagedAgentRecord,
    runtime: Option<Seq<char>>,
    now: Seq<char>,
) -> bool {
    &&& carries_record(new[i], name, record, runtime, now)
    &&& forall|j: int| 0 <= j < old.len() && j != i ==> new[j] == old[j]
    &&& if exists|j: int| 0 <= j < old.len() && is_template_named(#[trigger] old[j], name) {
        &&& 0 <= i < old.len()
        &&& is_template_named(old[i], name)
        &&& forall|j: int| 0 <= j < i ==> !is_template_named(#[trigger] old[j], name)
        &&& new.len() == old.len()
        &&& keeps_identity(new[i], old[i])
    } else {
        &&& i == old.len()
        &&& new.len() == old.len() + 1
        &&& is_fresh_template(new[i], now)
    }
}

/// Saves a managed agent's pinned configuration as a reusable template
/// under `name` (its trimmed name), with the agent's `runtime`, at `now`.
/// Its environment variables are never carried over. Returns the catalog
/// entry of the saved template.
pub fn save_agent_as_template(
    personas: &mut Vec<PersonaRecord>,
    name: String,
    record: &ManagedAgentRecord,
    runtime: Option<String>,
    now: String,
) -> (r: (usize, AgentTemplate))
    ensures
        save_outcome(
            old(personas)@,
            final(personas)@,
            r.0 as int,
            name@,
            *record,
            opt_view(runtime),
            now@,
        ),
        r.1 == template_of(final(personas)@[r.0 as int]),
{
    let ghost old_personas = personas@;
    let mut found: Option<usize> = None;
    let mut j: usize = 0;
    while j < personas.len()
        invariant_except_break
            found is None,
        invariant
            personas@ == old_personas,
            j <= personas@.len(),
            forall|k: int| 0 <= k < j ==> !is_template_named(#[trigger] personas@[k], name@),
        ensures
            personas@ == old_personas,
            match found {
                Some(i) => i < personas@.len() && is_template_named(personas@[i as int], name@)
                    && forall|k: int| 0 <= k < i ==> !is_template_named(#[trigger] personas@[k], name@),
                None => forall|k: int|
                    0 <= k < personas@.len() ==> !is_template_named(#[trigger] personas@[k], name@),
            },
        decreases personas@.len() - j,
    {
        let p = &personas[j];
        if p.is_active && p.source_team.is_none() && eq_ignore_ascii_case(
            trim(p.display_name.as_str()),
            name.as_str(),
        ) {
            found = Some(j);
            break;
        }
        j = j + 1;
    }
    let system_prompt = match &record.system_prompt {
        Some(s) => s.clone(),
        None => String::new(),
    };
    match found {
        Some(i) => {
            let mut p = personas.remove(i);
            p.display_name = name;
            p.avatar_url = clone_opt(&record.avatar_url);
            p.system_prompt = system_prompt;
            p.runtime = runtime;
            p.model = clone_opt(&record.model);
            p.provider = clone_opt(&record.provider);
            p.updated_at = now;
            let t = agent_template_from_persona(&p);
            personas.insert(i, p);
            assert(personas@ =~= old_personas.update(i as int, p));
            (i, t)
        },
        None => {
            let p = PersonaRecord {
                id: new_uuid_hyphenated(),
                display_name: name,
                avatar_url: clone_opt(&record.avatar_url),
                system_prompt,
                runtime,
                model: clone_opt(&record.model),
                provider: clone_opt(&record.provider),
                name_pool: Vec::new(),
                is_builtin: false,
                is_active: true,
                source_team: None,
                source_team_persona_slug: None,
                env_vars: Vec::new(),
                created_at: now.clone(),
                updated_at: now,
            };
            let t = agent_template_from_persona(&p);
            let i = personas.len();
            personas.push(p);
            (i, t)
        },
    }
}

/// Saving the same agent twice refreshes its template instead of
/// duplicating it: once an agent was saved under `name` (a trimmed name),
/// saving again under that name updates a template in place and leaves the
/// number of personas unchanged.
pub proof fn lemma_save_again_updates_in_place(
    before: Seq<PersonaRecord>,
    saved: Seq<PersonaRecord>,
    i: int,
    name: Seq<char>,
    record: ManagedAgentRecord,
    runtime: Option<Seq<char>>,
    now: Seq<char>,
    after: Seq<PersonaRecord>,
    k: int,
    record2: ManagedAgentRecord,
    runtime2: Option<Seq<char>>,
    now2: Seq<char>,
)
    requires
        trim_spec(name) == name,
        save_outcome(before, saved, i, name, record, runtime, now),
        save_outcome(saved, after, k, name, record2, runtime2, now2),
    ensures
        after.len() == saved.len(),
        k <= i,
{
    let p = saved[i];
    assert(p.display_name@ == name);
    assert(eq_ignore_ascii_case_spec(trim_spec(p.display_name@), name));
    if exists|j: int| 0 <= j < before.len() && is_template_named(#[trigger] before[j], name) {
        assert(is_template_named(before[i], name));
    }
    assert(is_template_named(saved[i], name));
    assert(0 <= i < saved.len());
}

/// The key the saved templates are ordered by: the display name in lower
/// case, then the id; each compared by its UTF-8 bytes, as `String` compares.
pub open spec fn catalog_key(t: AgentTemplate) -> (Seq<char>, Seq<char>) {
    (lowercase(t.display_name@), t.id@)
}

/// Key `x` comes strictly before key `y`.
pub open spec fn key_lt(x: (Seq<char>, Seq<char>), y: (Seq<char>, Seq<char>)) -> bool {
    bytes_lt(encode_utf8(x.0), encode_utf8(y.0)) || (x.0 == y.0 && bytes_lt(
        encode_utf8(x.1),
        encode_utf8(y.1),
    ))
}

proof fn lemma_key_lt_transitive(
    x: (Seq<char>, Seq<char>),
    y: (Seq<char>, Seq<char>),
    z: (Seq<char>, Seq<char>),
)
    requires
        key_lt(x, y),
        key_lt(y, z),
    ensures
        key_lt(x, z),
{
    let (x0, y0, z0) = (encode_utf8(x.0), encode_utf8(y.0), encode_utf8(z.0));
    let (x1, y1, z1) = (encode_utf8(x.1), encode_utf8(y.1), encode_utf8(z.1));
    if bytes_lt(x0, y0) && bytes_lt(y0, z0) {
        lemma_bytes_lt_transitive(x0, y0, z0);
    } else if bytes_lt(x1, y1) && bytes_lt(y1, z1) && x.0 == y.0 && y.0 == z.0 {
        lemma_bytes_lt_transitive(x1, y1, z1);
    }
}

proof fn lemma_key_lt_irreflexive(x: (Seq<char>, Seq<char>))
    ensures
        !key_lt(x, x),
{
    lemma_bytes_lt_irreflexive(encode_utf8(x.0));
    lemma_bytes_lt_irreflexive(encode_utf8(x.1));
}

/// The ids of the built-in templates.
pub open spec fn template_ids(ts: Seq<AgentTemplate>) -> Seq<Seq<char>> {
    ts.map_values(|t: AgentTemplate| t.id@)
}

/// A persona that the catalog lists among the saved templates: active, and
/// not shadowing a built-in by its id.
pub open spec fn is_listed(p: PersonaRecord, builtin_ids: Seq<Seq<char>>) -> bool {
    p.is_active && !builtin_ids.contains(p.id@)
}

/// The saved templates of the catalog, in the order of the personas.
pub open spec fn saved_templates(personas: Seq<PersonaRecord>, builtin_ids: Seq<Seq<char>>) -> Seq<
    AgentTemplate,
> {
    personas.filter(|p: PersonaRecord| is_listed(p, builtin_ids)).map_values(
        |p: PersonaRecord| template_of(p),
    )
}

/// The keys of `ts` from `lo` on never decrease.
pub open spec fn sorted_from(ts: Seq<AgentTemplate>, lo: int) -> bool {
    forall|i: int, j: int|
        lo <= i < j < ts.len() ==> !key_lt(catalog_key(#[trigger] ts[j]), catalog_key(#[trigger] ts[i]))
}

/// `sorted` is `s` ordered by catalog key, stably: `origin` tells which
/// element of `s` stands at each place, and elements of equal keys keep
/// their order.
pub open spec fn is_stable_sort(sorted: Seq<AgentTemplate>, s: Seq<AgentTemplate>, origin: Seq<int>) -> bool {
    &&& sorted.len() == s.len()
    &&& origin.len() == s.len()
    &&& forall|q: int|
        0 <= q < origin.len() ==> 0 <= #[trigger] origin[q] < s.len() && sorted[q] == s[origin[q]]
    &&& forall|a: int, b: int| 0 <= a < b < origin.len() ==> #[trigger] origin[a] != #[trigger] origin[b]
    &&& sorted_from(sorted, 0)
    &&& forall|a: int, b: int|
        0 <= a < b < sorted.len() && catalog_key(#[trigger] sorted[a]) == catalog_key(
            #[trigger] sorted[b],
        ) ==> origin[a] < origin[b]
}

fn key_less(a: &(String, String), b: &(String, String)) -> (r: bool)
    ensures
        r == key_lt((a.0@, a.1@), (b.0@, b.1@)),
{
    text_lt(a.0.as_str(), b.0.as_str()) || (str_eq(a.0.as_str(), b.0.as_str()) && text_lt(
        a.1.as_str(),
        b.1.as_str(),
    ))
}

fn is_builtin_id(builtins: &Vec<AgentTemplate>, id: &str) -> (r: bool)
    ensures
        r == template_ids(builtins@).contains(id@),
{
    let mut i: usize = 0;
    while i < builtins.len()
        invariant
            i <= builtins@.len(),
            forall|k: int| 0 <= k < i ==> #[trigger] builtins@[k].id@ != id@,
        decreases builtins@.len() - i,
    {
        if str_eq(builtins[i].id.as_str(), id) {
            assert(template_ids(builtins@)[i as int] == id@);
            return true;
        }
        i = i + 1;
    }
    assert forall|k: int| 0 <= k < template_ids(builtins@).len() implies #[trigger] template_ids(
        builtins@,
    )[k] != id@ by {
        assert(builtins@[k].id@ != id@);
    }
    false
}

/// The templates of the Create Agent wizard: the built-ins in their order,
/// followed by the saved templates (active personas whose id shadows no
/// built-in) ordered by display name without case, then by id.
pub fn list_agent_templates(builtins: Vec<AgentTemplate>, personas: &Vec<PersonaRecord>) -> (r: Vec<
    AgentTemplate,
>)
    ensures
        r@.len() == builtins@.len() + saved_templates(personas@, template_ids(builtins@)).len(),
        r@.take(builtins@.len() as int) == builtins@,
        r@.skip(builtins@.len() as int).to_multiset() == saved_templates(
            personas@,
            template_ids(builtins@),
        ).to_multiset(),
        sorted_from(r@, builtins@.len() as int),
        exists|origin: Seq<int>|
            #[trigger] is_stable_sort(
                r@.skip(builtins@.len() as int),
                saved_templates(personas@, template_ids(builtins@)),
                origin,
            ),
{
    let ghost ids = template_ids(builtins@);
    let ghost pred = |p: PersonaRecord| is_listed(p, ids);
    let mut saved: Vec<AgentTemplate> = Vec::new();
    let mut keys: Vec<(String, String)> = Vec::new();
    let mut i: usize = 0;
    let ghost mut origin: Seq<int> = Seq::empty();
    proof {
        reveal_with_fuel(Seq::<_>::filter, 1);
        assert(personas@.take(0) =~= Seq::<PersonaRecord>::empty());
        assert(personas@.take(0).filter(pred) =~= Seq::<PersonaRecord>::empty());
        assert(personas@.take(0).filter(pred).map_values(|p: PersonaRecord| template_of(p))
            =~= Seq::<AgentTemplate>::empty());
        assert(saved@ =~= Seq::<AgentTemplate>::empty());
    }
    while i < personas.len()
        invariant
            i <= personas@.len(),
            ids == template_ids(builtins@),
            pred == (|p: PersonaRecord| is_listed(p, ids)),
            keys@.len() == saved@.len(),
            forall|q: int|
                0 <= q < saved@.len() ==> (#[trigger] keys@[q]).0@ == catalog_key(saved@[q]).0
                    && keys@[q].1@ == catalog_key(saved@[q]).1,
            sorted_from(saved@, 0),
            saved@.to_multiset() == personas@.take(i as int).filter(pred).map_values(
                |p: PersonaRecord| template_of(p),
            ).to_multiset(),
            is_stable_sort(
                saved@,
                personas@.take(i as int).filter(pred).map_values(|p: PersonaRecord| template_of(p)),
                origin,
            ),
        decreases personas@.len() - i,
    {
        let p = &personas[i];
        proof {
            assert(personas@.take(i + 1) =~= personas@.take(i as int).push(personas@[i as int]));
            personas@.take(i as int).lemma_filter_push(personas@[i as int], pred);
        }
        if p.is_active && !is_builtin_id(&builtins, p.id.as_str()) {
            let t = agent_template_from_persona(p);
            let key = (to_lowercase(t.display_name.as_str()), t.id.clone());
            let mut pos: usize = 0;
            while pos < keys.len() && !key_less(&key, &keys[pos])
                invariant
                    pos <= keys@.len(),
                    keys@.len() == saved@.len(),
                    forall|q: int| 0 <= q < pos ==> !key_lt(
                        catalog_key(t),
                        catalog_key(#[trigger] saved@[q]),
                    ),
                    forall|q: int|
                        0 <= q < saved@.len() ==> (#[trigger] keys@[q]).0@ == catalog_key(
                            saved@[q],
                        ).0 && keys@[q].1@ == catalog_key(saved@[q]).1,
                    key.0@ == catalog_key(t).0,
                    key.1@ == catalog_key(t).1,
                decreases keys@.len() - pos,
            {
                pos = pos + 1;
            }
            let ghost old_saved = saved@;
            proof {
                if pos < saved@.len() {
                    assert(key_lt(catalog_key(t), catalog_key(saved@[pos as int])));
                }
                assert forall|a: int, b: int|
                    0 <= a < b < old_saved.len() + 1 implies !key_lt(
                    catalog_key(#[trigger] old_saved.insert(pos as int, t)[b]),
                    catalog_key(#[trigger] old_saved.insert(pos as int, t)[a]),
                ) by {
                    let s2 = old_saved.insert(pos as int, t);
                    if a == pos {
                        let y = old_saved[b - 1];
                        assert(s2[b] == y);
                        if b - 1 > pos {
                            assert(!key_lt(catalog_key(old_saved[b - 1]), catalog_key(old_saved[pos as int])));
                        }
                        if key_lt(catalog_key(y), catalog_key(t)) {
                            lemma_key_lt_irreflexive(catalog_key(y));
                            lemma_key_lt_transitive(
                                catalog_key(y),
                                catalog_key(t),
                                catalog_key(old_saved[pos as int]),
                            );
                        }
                    } else if b == pos {
                        assert(s2[a] == old_saved[a]);
                    } else {
                        let a0 = if a < pos { a } else { a - 1 };
                        let b0 = if b < pos { b } else { b - 1 };
                        assert(s2[a] == old_saved[a0]);
                        assert(s2[b] == old_saved[b0]);
                    }
                }
                vstd::seq_lib::to_multiset_insert(old_saved, pos as int, t);
            }
            let ghost old_keys = keys@;
            saved.insert(pos, t);
            keys.insert(pos, key);
            proof {
                assert forall|q: int| 0 <= q < saved@.len() implies (#[trigger] keys@[q]).0@
                    == catalog_key(saved@[q]).0 && keys@[q].1@ == catalog_key(saved@[q]).1 by {
                    if q < pos {
                        assert(keys@[q] == old_keys[q]);
                        assert(saved@[q] == old_saved[q]);
                    } else if q > pos {
                        assert(keys@[q] == old_keys[q - 1]);
                        assert(saved@[q] == old_saved[q - 1]);
                    }
                }
                assert(sorted_from(saved@, 0));
                let prefix = personas@.take(i as int).filter(pred);
                assert(prefix.push(personas@[i as int]).map_values(
                    |p: PersonaRecord| template_of(p),
                ) =~= prefix.map_values(|p: PersonaRecord| template_of(p)).push(t));
                vstd::seq_lib::to_multiset_build(
                    prefix.map_values(|p: PersonaRecord| template_of(p)),
                    t,
                );
                let listed = prefix.map_values(|p: PersonaRecord| template_of(p));
                let listed2 = listed.push(t);
                let n = listed.len() as int;
                let o2 = origin.insert(pos as int, n);
                assert forall|q: int| 0 <= q < o2.len() implies 0 <= #[trigger] o2[q] < listed2.len()
                    && saved@[q] == listed2[o2[q]] by {
                    if q < pos {
                        assert(o2[q] == origin[q]);
                        assert(saved@[q] == old_saved[q]);
                    } else if q > pos {
                        assert(o2[q] == origin[q - 1]);
                        assert(saved@[q] == old_saved[q - 1]);
                    }
                }
                assert forall|a: int, b: int| 0 <= a < b < o2.len() implies #[trigger] o2[a]
                    != #[trigger] o2[b] by {
                    let a0 = if a < pos { a } else { a - 1 };
                    let b0 = if b < pos { b } else { b - 1 };
                    if a != pos && b != pos {
                        assert(o2[a] == origin[a0]);
                        assert(o2[b] == origin[b0]);
                    } else if a == pos {
                        assert(o2[b] == origin[b0]);
                    } else {
                        assert(o2[a] == origin[a0]);
                    }
                }
                assert forall|a: int, b: int|
                    0 <= a < b < saved@.len() && catalog_key(#[trigger] saved@[a]) == catalog_key(
                        #[trigger] saved@[b],
                    ) implies o2[a] < o2[b] by {
                    let a0 = if a < pos { a } else { a - 1 };
                    let b0 = if b < pos { b } else { b - 1 };
                    if a != pos && b != pos {
                        assert(o2[a] == origin[a0]);
                        assert(o2[b] == origin[b0]);
                        assert(saved@[a] == old_saved[a0]);
                        assert(saved@[b] == old_saved[b0]);
                    } else if a == pos {
                        let y = old_saved[b - 1];
                        assert(saved@[b] == y);
                        assert(catalog_key(y) == catalog_key(t));
                        lemma_key_lt_irreflexive(catalog_key(t));
                        if b - 1 > pos {
                            assert(!key_lt(catalog_key(old_saved[b - 1]), catalog_key(old_saved[pos as int])));
                        }
                        assert(false);
                    } else {
                        assert(o2[a] == origin[a0]);
                    }
                }
                assert(is_stable_sort(saved@, listed2, o2));
                origin = o2;
            }
        }
        i = i + 1;
    }
    proof {
        assert(personas@.take(personas@.len() as int) =~= personas@);
    }
    let ghost sorted_saved = saved@;
    let mut r = builtins;
    let ghost b = r@;
    r.append(&mut saved);
    proof {
        assert(r@.take(b.len() as int) =~= b);
        assert(r@.skip(b.len() as int) =~= sorted_saved);
        assert forall|x: int, y: int| b.len() <= x < y < r@.len() implies !key_lt(
            catalog_key(#[trigger] r@[y]),
            catalog_key(#[trigger] r@[x]),
        ) by {
            assert(r@[x] == sorted_saved[x - b.len()]);
            assert(r@[y] == sorted_saved[y - b.len()]);
        }
        sorted_saved.to_multiset_ensures();
        saved_templates(personas@, ids).to_multiset_ensures();
        assert(is_stable_sort(r@.skip(b.len() as int), saved_templates(personas@, ids), origin));
    }
    r
}

/// A template that was just saved shows up among the saved templates of
/// the catalog built from the personas after saving, unless its id is one
/// of a built-in.
pub proof fn lemma_saved_template_is_listed(
    before: Seq<PersonaRecord>,
    after: Seq<PersonaRecord>,
    i: int,
    name: Seq<char>,
    record: ManagedAgentRecord,
    runtime: Option<Seq<char>>,
    now: Seq<char>,
    builtin_ids: Seq<Seq<char>>,
    catalog_saved: Seq<AgentTemplate>,
)
    requires
        save_outcome(before, after, i, name, record, runtime, now),
        !builtin_ids.contains(after[i].id@),
        catalog_saved.to_multiset() == saved_templates(after, builtin_ids).to_multiset(),
    ensures
        catalog_saved.contains(template_of(after[i])),
{
    broadcast use vstd::seq_lib::group_filter_ensures;

    let pred = |p: PersonaRecord| is_listed(p, builtin_ids);
    if exists|j: int| 0 <= j < before.len() && is_template_named(#[trigger] before[j], name) {
        assert(is_template_named(before[i], name));
    }
    assert(0 <= i < after.len());
    assert(after[i].is_active);
    assert(pred(after[i]));
    let listed = after.filter(pred);
    assert(listed.contains(after[i]));
    let j = choose|j: int| 0 <= j < listed.len() && listed[j] == after[i];
    let saved = saved_templates(after, builtin_ids);
    assert(saved[j] == template_of(after[i]));
    assert(saved.contains(template_of(after[i])));
    vstd::seq_lib::to_multiset_contains(saved, template_of(after[i]));
    vstd::seq_lib::to_multiset_contains(catalog_saved, template_of(after[i]));
}

/// `x` comes before `y` in lexicographic byte order: it is a proper prefix
/// of `y`, or at the first place they differ its byte is the smaller.
pub open spec fn precedes(x: Seq<u8>, y: Seq<u8>) -> bool {
    (x.len() < y.len() && x == y.take(x.len() as int)) || exists|k: int|
        0 <= k < x.len() && k < y.len() && x.take(k) == y.take(k) && #[trigger] x[k] < y[k]
}

proof fn lemma_bytes_lt_precedes(x: Seq<u8>, y: Seq<u8>)
    requires
        bytes_lt(x, y),
    ensures
        precedes(x, y),
    decreases x.len(),
{
    if x.len() == 0 {
        assert(x =~= y.take(0));
    } else if x[0] != y[0] {
        assert(x.take(0) =~= y.take(0));
        assert(x[0] < y[0]);
    } else {
        let (xt, yt) = (x.drop_first(), y.drop_first());
        lemma_bytes_lt_precedes(xt, yt);
        if xt.len() < yt.len() && xt == yt.take(xt.len() as int) {
            assert forall|k: int| 0 <= k < x.len() implies x[k] == y.take(x.len() as int)[k] by {
                if k > 0 {
                    assert(x[k] == xt[k - 1]);
                    assert(yt.take(xt.len() as int)[k - 1] == yt[k - 1]);
                    assert(y[k] == yt[k - 1]);
                }
            }
            assert(x =~= y.take(x.len() as int));
        } else {
            let k = choose|k: int|
                0 <= k < xt.len() && k < yt.len() && xt.take(k) == yt.take(k) && #[trigger] xt[k]
                    < yt[k];
            assert(x.take(k + 1) =~= seq![x[0]] + xt.take(k));
            assert(y.take(k + 1) =~= seq![y[0]] + yt.take(k));
            assert(x[k + 1] == xt[k]);
            assert(y[k + 1] == yt[k]);
        }
    }
}

/// The saved part of the catalog, from `lo` on, is ordered by the whole
/// lower-cased display name, compared by its UTF-8 bytes; entries whose
/// lower-cased names are equal are ordered by id.
pub proof fn lemma_catalog_order(catalog: Seq<AgentTemplate>, lo: int)
    requires
        sorted_from(catalog, lo),
    ensures
        forall|a: int, b: int|
            lo <= a < b < catalog.len() ==> {
                let x = lowercase(#[trigger] catalog[a].display_name@);
                let y = lowercase(#[trigger] catalog[b].display_name@);
                &&& (x == y || precedes(encode_utf8(x), encode_utf8(y)))
                &&& (x == y ==> catalog[a].id@ == catalog[b].id@ || precedes(
                    encode_utf8(catalog[a].id@),
                    encode_utf8(catalog[b].id@),
                ))
            },
{
    assert forall|a: int, b: int| lo <= a < b < catalog.len() implies {
        let x = lowercase(#[trigger] catalog[a].display_name@);
        let y = lowercase(#[trigger] catalog[b].display_name@);
        &&& (x == y || precedes(encode_utf8(x), encode_utf8(y)))
        &&& (x == y ==> catalog[a].id@ == catalog[b].id@ || precedes(
            encode_utf8(catalog[a].id@),
            encode_utf8(catalog[b].id@),
        ))
    } by {
        let x = lowercase(catalog[a].display_name@);
        let y = lowercase(catalog[b].display_name@);
        let ia = catalog[a].id@;
        let ib = catalog[b].id@;
        assert(!key_lt(catalog_key(catalog[b]), catalog_key(catalog[a])));
        lemma_bytes_lt_total(encode_utf8(x), encode_utf8(y));
        if encode_utf8(x) == encode_utf8(y) {
            vstd::utf8::encode_utf8_decode_utf8(x);
            vstd::utf8::encode_utf8_decode_utf8(y);
            assert(x == y);
        } else if bytes_lt(encode_utf8(x), encode_utf8(y)) {
            lemma_bytes_lt_precedes(encode_utf8(x), encode_utf8(y));
        }
        if x == y {
            lemma_bytes_lt_total(encode_utf8(ia), encode_utf8(ib));
            if encode_utf8(ia) == encode_utf8(ib) {
                vstd::utf8::encode_utf8_decode_utf8(ia);
                vstd::utf8::encode_utf8_decode_utf8(ib);
            } else if bytes_lt(encode_utf8(ia), encode_utf8(ib)) {
                lemma_bytes_lt_precedes(encode_utf8(ia), encode_utf8(ib));
            }
        }
    }
}

/// `name` is the trimmed display name `display`, ignoring ASCII case.
pub open spec fn same_name_ignoring_ascii_case(display: Seq<char>, name: Seq<char>) -> bool {
    let t = trim_spec(display);
    t.len() == name.len() && forall|k: int| 0 <= k < t.len() ==> #[trigger] ascii_fold(t[k]) == ascii_fold(name[k])
}

/// Saving under `name` updates a persona in place only if it is an active
/// in-app template whose trimmed display name equals `name` ignoring ASCII
/// case, and it is the first such; when there is none, a new persona is
/// appended and every existing one is left as it was.
pub proof fn lemma_save_matches_by_name(
    before: Seq<PersonaRecord>,
    after: Seq<PersonaRecord>,
    i: int,
    name: Seq<char>,
    record: ManagedAgentRecord,
    runtime: Option<Seq<char>>,
    now: Seq<char>,
)
    requires
        save_outcome(before, after, i, name, record, runtime, now),
    ensures
        0 <= i <= before.len(),
        i < before.len() ==> {
            &&& before[i].is_active
            &&& before[i].source_team is None
            &&& same_name_ignoring_ascii_case(before[i].display_name@, name)
            &&& forall|j: int|
                0 <= j < i ==> !(before[j].is_active && before[j].source_team is None
                    && same_name_ignoring_ascii_case(#[trigger] before[j].display_name@, name))
            &&& after.len() == before.len()
        },
        (forall|j: int|
            0 <= j < before.len() ==> !(before[j].is_active && before[j].source_team is None
                && same_name_ignoring_ascii_case(#[trigger] before[j].display_name@, name))) ==> {
            &&& i == before.len()
            &&& after.len() == before.len() + 1
            &&& forall|j: int| 0 <= j < before.len() ==> #[trigger] after[j] == before[j]
        },
{
    if exists|j: int| 0 <= j < before.len() && is_template_named(#[trigger] before[j], name) {
        let j = choose|j: int| 0 <= j < before.len() && is_template_named(#[trigger] before[j], name);
        assert(is_template_named(before[j], name));
        assert(before[j].is_active && before[j].source_team is None
            && same_name_ignoring_ascii_case(before[j].display_name@, name));
        assert(is_template_named(before[i], name));
        assert forall|k: int| 0 <= k < i implies !(before[k].is_active && before[k].source_team is None
            && same_name_ignoring_ascii_case(#[trigger] before[k].display_name@, name)) by {
            assert(!is_template_named(before[k], name));
        }
    } else {
        assert(i == before.len());
    }
}

/// The saved part of the catalog lists exactly the active personas whose id
/// is no built-in's: every entry is the template of such a persona, and the
/// template of every such persona is an entry.
pub proof fn lemma_catalog_membership(
    personas: Seq<PersonaRecord>,
    builtin_ids: Seq<Seq<char>>,
    catalog_saved: Seq<AgentTemplate>,
)
    requires
        catalog_saved.to_multiset() == saved_templates(personas, builtin_ids).to_multiset(),
    ensures
        forall|q: int|
            0 <= q < catalog_saved.len() ==> exists|j: int|
                0 <= j < personas.len() && personas[j].is_active && !builtin_ids.contains(
                    personas[j].id@,
                ) && #[trigger] catalog_saved[q] == template_of(personas[j]),
        forall|j: int|
            0 <= j < personas.len() && personas[j].is_active && !builtin_ids.contains(
                personas[j].id@,
            ) ==> catalog_saved.contains(template_of(#[trigger] personas[j])),
{
    broadcast use vstd::seq_lib::group_filter_ensures;

    let pred = |p: PersonaRecord| is_listed(p, builtin_ids);
    let listed = personas.filter(pred);
    let saved = saved_templates(personas, builtin_ids);
    assert forall|q: int| 0 <= q < catalog_saved.len() implies exists|j: int|
        0 <= j < personas.len() && personas[j].is_active && !builtin_ids.contains(personas[j].id@)
            && #[trigger] catalog_saved[q] == template_of(personas[j]) by {
        let t = catalog_saved[q];
        assert(catalog_saved.contains(t));
        vstd::seq_lib::to_multiset_contains(catalog_saved, t);
        vstd::seq_lib::to_multiset_contains(saved, t);
        let m = choose|m: int| 0 <= m < saved.len() && saved[m] == t;
        let p = listed[m];
        assert(pred(p));
        assert(listed.contains(p));
        personas.lemma_filter_contains_rev(pred, p);
        let j = choose|j: int| 0 <= j < personas.len() && personas[j] == p;
        assert(personas[j].is_active && !builtin_ids.contains(personas[j].id@));
        assert(catalog_saved[q] == template_of(personas[j]));
    }
    assert forall|j: int|
        0 <= j < personas.len() && personas[j].is_active && !builtin_ids.contains(
            personas[j].id@,
        ) implies catalog_saved.contains(template_of(#[trigger] personas[j])) by {
        assert(pred(personas[j]));
        assert(listed.contains(personas[j]));
        let m = choose|m: int| 0 <= m < listed.len() && listed[m] == personas[j];
        assert(saved[m] == template_of(personas[j]));
        assert(saved.contains(template_of(personas[j])));
        vstd::seq_lib::to_multiset_contains(saved, template_of(personas[j]));
        vstd::seq_lib::to_multiset_contains(catalog_saved, template_of(personas[j]));
    }
}

} // verus!
