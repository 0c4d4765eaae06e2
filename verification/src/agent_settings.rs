//! The runtime configuration shown for a coding agent, projected out of its
//! settings documents: the user's `settings.json`, the project's
//! `settings.json` layered on top, and the MCP server list of the agent's
//! home-directory document.
use vstd::prelude::*;
use crate::json::{
    entries_view, entries_wf, has_key, json_wf, keys_unique, lemma_entries_wf, lemma_sorted_keys_unique, get, lemma_entries_view, merge_settings, object_get, opt_view, parse_json,
    spec_merge_settings, spec_parse_json, JVal, JsonValue,
};
use crate::path::{parse_path, path_components, path_eq};
use crate::text::{chars_of, copy_chars, string_of};

verus! {

/// Whether `c` is white space in the sense of the Unicode `White_Space`
/// property.
pub open spec fn is_white_space(c: char) -> bool {
    let u = c as u32;
    ||| 0x09 <= u <= 0x0d
    ||| u == 0x20
    ||| u == 0x85
    ||| u == 0xa0
    ||| u == 0x1680
    ||| 0x2000 <= u <= 0x200a
    ||| u == 0x2028
    ||| u == 0x2029
    ||| u == 0x202f
    ||| u == 0x205f
    ||| u == 0x3000
}

fn white_space(c: char) -> (ws: bool)
    ensures
        ws == is_white_space(c),
{
    let u = c as u32;
    (0x09 <= u && u <= 0x0d) || u == 0x20 || u == 0x85 || u == 0xa0 || u == 0x1680 || (0x2000
        <= u && u <= 0x200a) || u == 0x2028 || u == 0x2029 || u == 0x202f || u == 0x205f || u
        == 0x3000
}

/// `s` without its leading white space.
pub open spec fn trim_start(s: Seq<char>) -> Seq<char>
    decreases s.len(),
{
    if s.len() > 0 && is_white_space(s[0]) {
        trim_start(s.drop_first())
    } else {
        s
    }
}

/// `s` without its trailing white space.
pub open spec fn trim_end(s: Seq<char>) -> Seq<char>
    decreases s.len(),
{
    if s.len() > 0 && is_white_space(s.last()) {
        trim_end(s.drop_last())
    } else {
        s
    }
}

/// `s` without leading and trailing white space.
pub open spec fn trim(s: Seq<char>) -> Seq<char> {
    trim_end(trim_start(s))
}

/// The characters of `s` without leading and trailing white space.
pub fn trim_chars(s: &Vec<char>) -> (t: Vec<char>)
    ensures
        t@ == trim(s@),
{
    let n = s.len();
    let mut i: usize = 0;
    assert(s@.subrange(0, n as int) =~= s@);
    while i < n && white_space(s[i])
        invariant
            i <= n,
            n == s@.len(),
            trim_start(s@) == trim_start(s@.subrange(i as int, n as int)),
        decreases n - i,
    {
        assert(s@.subrange(i as int, n as int).drop_first() =~= s@.subrange(i + 1, n as int));
        i = i + 1;
    }
    let mut e: usize = n;
    while e > i && white_space(s[e - 1])
        invariant
            i <= e <= n,
            n == s@.len(),
            trim_end(s@.subrange(i as int, n as int)) == trim_end(s@.subrange(i as int, e as int)),
        decreases e - i,
    {
        assert(s@.subrange(i as int, e as int).drop_last() =~= s@.subrange(i as int, e - 1));
        e = e - 1;
    }
    let mut t: Vec<char> = Vec::new();
    let mut k: usize = i;
    while k < e
        invariant
            i <= k <= e,
            e <= n,
            n == s@.len(),
            t@ == s@.subrange(i as int, k as int),
        decreases e - k,
    {
        t.push(s[k]);
        assert(t@ =~= s@.subrange(i as int, k + 1));
        k = k + 1;
    }
    t
}

/// The optional text of an optional string.
pub open spec fn opt_text(s: Option<String>) -> Option<Seq<char>> {
    match s {
        Some(t) => Some(t@),
        None => None,
    }
}

/// The string at `key` of an object, trimmed, when it is a string and not
/// blank after trimming.
pub open spec fn spec_json_string(val: JVal, key: Seq<char>) -> Option<Seq<char>> {
    match object_get(val, key) {
        Some(JVal::Str(s)) => if trim(s).len() > 0 {
            Some(trim(s))
        } else {
            None
        },
        _ => None,
    }
}

/// The trimmed, non-blank string at `key` of `val`.
pub fn json_string(val: &JsonValue, key: &str) -> (s: Option<String>)
    ensures
        opt_text(s) == spec_json_string(val@, key@),
{
    match get(val, key) {
        Some(JsonValue::Str(s)) => {
            let chars = chars_of(s.as_str());
            let t = trim_chars(&chars);
            if t.len() > 0 {
                Some(string_of(&t))
            } else {
                None
            }
        },
        _ => None,
    }
}

/// How a setting's value reads as text: strings as they are, numbers by
/// their text, booleans and null by name, and a placeholder for arrays and
/// objects.
pub open spec fn leaf_text(v: JVal) -> Seq<char> {
    match v {
        JVal::Null => "null"@,
        JVal::Bool(b) => if b {
            "true"@
        } else {
            "false"@
        },
        JVal::Number(t) => t,
        JVal::Str(s) => s,
        JVal::Array(_) => "[...]"@,
        JVal::Object(_) => "{...}"@,
    }
}

/// The fields of one nested object, each named `<key>.<entry key>`.
pub open spec fn nested_fields(key: Seq<char>, entries: Seq<(Seq<char>, JVal)>) -> Seq<(Seq<char>, Seq<char>)> {
    Seq::new(entries.len(), |i: int| (key + "."@ + entries[i].0, leaf_text(entries[i].1)))
}

/// The fields that one top-level setting contributes: an object with entries
/// is flattened one level, anything else is one field.
pub open spec fn setting_fields(key: Seq<char>, v: JVal) -> Seq<(Seq<char>, Seq<char>)> {
    match v {
        JVal::Object(entries) => if entries.len() > 0 {
            nested_fields(key, entries)
        } else {
            seq![(key, leaf_text(v))]
        },
        _ => seq![(key, leaf_text(v))],
    }
}

/// The fields of the top-level settings whose keys are not skipped, in order.
pub open spec fn config_fields(entries: Seq<(Seq<char>, JVal)>, skip: Seq<Seq<char>>) -> Seq<(Seq<char>, Seq<char>)>
    decreases entries.len(),
{
    if entries.len() == 0 {
        Seq::empty()
    } else {
        let front = config_fields(entries.drop_last(), skip);
        if skip.contains(entries.last().0) {
            front
        } else {
            front + setting_fields(entries.last().0, entries.last().1)
        }
    }
}

/// Every field the settings document sets, except those under skipped keys.
pub open spec fn spec_extract_config_fields(settings: JVal, skip: Seq<Seq<char>>) -> Seq<(Seq<char>, Seq<char>)> {
    match settings {
        JVal::Object(entries) => config_fields(entries, skip),
        _ => Seq::empty(),
    }
}

/// The character sequences of a list of string slices.
pub open spec fn strs_view(v: Seq<&str>) -> Seq<Seq<char>> {
    v.map_values(|s: &str| s@)
}

/// The name/value pairs held by a vector of string pairs.
pub open spec fn pairs_view(v: Seq<(String, String)>) -> Seq<(Seq<char>, Seq<char>)> {
    v.map_values(|p: (String, String)| (p.0@, p.1@))
}

fn is_skipped(skip: &[&str], key: &String) -> (skipped: bool)
    ensures
        skipped == strs_view(skip@).contains(key@),
{
    for i in 0..skip.len()
        invariant
            forall|j: int| 0 <= j < i ==> strs_view(skip@)[j] != key@,
    {
        let candidate = String::from_str(skip[i]);
        if candidate == *key {
            assert(strs_view(skip@)[i as int] == key@);
            return true;
        }
    }
    false
}

fn leaf_string(v: &JsonValue) -> (text: String)
    ensures
        text@ == leaf_text(v@),
{
    match v {
        JsonValue::Null => String::from_str("null"),
        JsonValue::Bool(b) => if *b {
            String::from_str("true")
        } else {
            String::from_str("false")
        },
        JsonValue::Number(t) => t.clone(),
        JsonValue::Str(s) => s.clone(),
        JsonValue::Array(_) => String::from_str("[...]"),
        JsonValue::Object(_) => String::from_str("{...}"),
    }
}

fn push_setting_fields(out: &mut Vec<(String, String)>, key: &String, v: &JsonValue)
    ensures
        pairs_view(final(out)@) == pairs_view(old(out)@) + setting_fields(key@, v@),
{
    let ghost start = pairs_view(out@);
    match v {
        JsonValue::Object(entries) => {
            if entries.len() > 0 {
                let ghost ev = entries_view(entries@);
                for i in 0..entries.len()
                    invariant
                        ev == entries_view(entries@),
                        v@ == JVal::Object(ev),
                        pairs_view(out@) == start + nested_fields(key@, ev).subrange(0, i as int),
                {
                    proof {
                        lemma_entries_view(entries@);
                    }
                    let ghost before = out@;
                    let mut name = key.clone();
                    name.append(".");
                    name.append(entries[i].0.as_str());
                    let text = leaf_string(&entries[i].1);
                    out.push((name, text));
                    assert(pairs_view(out@) =~= pairs_view(before).push((name@, text@)));
                    assert(nested_fields(key@, ev).subrange(0, i + 1) =~= nested_fields(key@, ev).subrange(0, i as int).push((name@, text@)));
                }
                proof {
                    lemma_entries_view(entries@);
                }
                assert(nested_fields(key@, ev).subrange(0, entries@.len() as int) =~= nested_fields(key@, ev));
                return;
            }
        },
        _ => {},
    }
    proof {
        lemma_entries_view_len(v);
    }
    let ghost before = out@;
    let text = leaf_string(v);
    out.push((key.clone(), text));
    assert(pairs_view(out@) =~= pairs_view(before) + seq![(key@, leaf_text(v@))]);
}

proof fn lemma_entries_view_len(v: &JsonValue)
    ensures
        v matches JsonValue::Object(entries) ==> entries_view(entries@).len() == entries@.len(),
{
    if let JsonValue::Object(entries) = v {
        lemma_entries_view(entries@);
    }
}

/// Every field the settings set, as `name`/`value` text pairs, except those
/// under the keys in `skip`: a top-level object with entries is flattened one
/// level into `<key>.<entry>` fields, any other value is one field.
pub fn extract_config_fields(settings: &JsonValue, skip: &[&str]) -> (fields: Vec<(String, String)>)
    ensures
        pairs_view(fields@) == spec_extract_config_fields(settings@, strs_view(skip@)),
{
    let mut out: Vec<(String, String)> = Vec::new();
    match settings {
        JsonValue::Object(entries) => {
            let ghost ev = entries_view(entries@);
            assert(pairs_view(out@) =~= Seq::<(Seq<char>, Seq<char>)>::empty());
            for i in 0..entries.len()
                invariant
                    ev == entries_view(entries@),
                    pairs_view(out@) == config_fields(ev.subrange(0, i as int), strs_view(skip@)),
            {
                proof {
                    lemma_entries_view(entries@);
                }
                assert(ev.subrange(0, i + 1).drop_last() =~= ev.subrange(0, i as int));
                assert(ev.subrange(0, i + 1).last() == (entries@[i as int].0@, entries@[i as int].1@));
                if !is_skipped(skip, &entries[i].0) {
                    push_setting_fields(&mut out, &entries[i].0, &entries[i].1);
                }
            }
            proof {
                lemma_entries_view(entries@);
            }
            assert(ev.subrange(0, entries@.len() as int) =~= ev);
        },
        _ => {
            assert(pairs_view(out@) =~= Seq::<(Seq<char>, Seq<char>)>::empty());
        },
    }
    out
}

/// An extension the agent has configured.
#[derive(Debug, PartialEq, Eq)]
pub struct ExtensionEntry {
    pub name: String,
    pub kind: String,
    pub enabled: bool,
}

/// The configuration the panel shows for an agent.
#[derive(Debug, PartialEq, Eq)]
pub struct RuntimeFileConfig {
    pub model: Option<String>,
    pub thinking_effort: Option<String>,
    pub system_prompt: Option<String>,
    pub extra: Vec<(String, String)>,
    pub extensions: Vec<ExtensionEntry>,
}

impl Default for RuntimeFileConfig {
    fn default() -> (cfg: Self)
        ensures
            cfg.model is None,
            cfg.thinking_effort is None,
            cfg.system_prompt is None,
            cfg.extra@.len() == 0,
            cfg.extensions@.len() == 0,
    {
        RuntimeFileConfig {
            model: None,
            thinking_effort: None,
            system_prompt: None,
            extra: Vec::new(),
            extensions: Vec::new(),
        }
    }
}

impl RuntimeFileConfig {
    /// The value of the first extra field named `name`.
    pub fn extra_value(&self, name: &str) -> (value: Option<String>)
        ensures
            match value {
                Some(v) => exists|i: int|
                    0 <= i < self.extra@.len() && #[trigger] self.extra@[i].0@ == name@
                        && self.extra@[i].1@ == v@ && forall|j: int|
                        0 <= j < i ==> self.extra@[j].0@ != name@,
                None => forall|i: int| 0 <= i < self.extra@.len() ==> #[trigger] self.extra@[i].0@ != name@,
            },
    {
        let wanted = String::from_str(name);
        for i in 0..self.extra.len()
            invariant
                wanted@ == name@,
                forall|j: int| 0 <= j < i ==> #[trigger] self.extra@[j].0@ != name@,
        {
            if self.extra[i].0 == wanted {
                return Some(self.extra[i].1.clone());
            }
        }
        None
    }
}

/// The keys whose values have fields of their own and are left out of the
/// extra fields.
pub open spec fn normalized_keys() -> Seq<Seq<char>> {
    seq!["model"@, "effortLevel"@]
}

/// Project the fields the panel surfaces out of a settings object: the model,
/// the thinking effort from `effortLevel`, and every other field as an extra.
pub fn apply_settings(cfg: &mut RuntimeFileConfig, settings: &JsonValue)
    ensures
        opt_text(final(cfg).model) == spec_json_string(settings@, "model"@),
        opt_text(final(cfg).thinking_effort) == spec_json_string(settings@, "effortLevel"@),
        pairs_view(final(cfg).extra@) == spec_extract_config_fields(settings@, normalized_keys()),
        final(cfg).system_prompt == old(cfg).system_prompt,
        final(cfg).extensions == old(cfg).extensions,
{
    cfg.model = json_string(settings, "model");
    cfg.thinking_effort = json_string(settings, "effortLevel");
    let skip: [&str; 2] = ["model", "effortLevel"];
    assert(strs_view(skip@) =~= normalized_keys());
    cfg.extra = extract_config_fields(settings, &skip);
}

/// The names of the MCP servers listed in the `mcpServers` object of the
/// agent's home-directory document, in order.
pub open spec fn mcp_server_names(mcp_config: Option<JVal>) -> Seq<Seq<char>> {
    match mcp_config {
        Some(doc) => match object_get(doc, "mcpServers"@) {
            Some(JVal::Object(servers)) => Seq::new(servers.len(), |i: int| servers[i].0),
            _ => Seq::empty(),
        },
        None => Seq::empty(),
    }
}

/// The extensions of one configuration: one enabled `mcp` entry per server.
pub open spec fn extensions_are_mcp_servers(extensions: Seq<ExtensionEntry>, names: Seq<Seq<char>>) -> bool {
    &&& extensions.len() == names.len()
    &&& forall|i: int| 0 <= i < names.len() ==> {
        &&& (#[trigger] extensions[i]).name@ == names[i]
        &&& extensions[i].kind@ == "mcp"@
        &&& extensions[i].enabled
    }
}

fn mcp_extensions(mcp_config: &Option<JsonValue>) -> (extensions: Vec<ExtensionEntry>)
    ensures
        extensions_are_mcp_servers(extensions@, mcp_server_names(opt_view(*mcp_config))),
{
    let mut extensions: Vec<ExtensionEntry> = Vec::new();
    if let Some(doc) = mcp_config {
        if let Some(JsonValue::Object(servers)) = get(doc, "mcpServers") {
            let ghost names = mcp_server_names(opt_view(*mcp_config));
            proof {
                lemma_entries_view(servers@);
            }
            for i in 0..servers.len()
                invariant
                    names == mcp_server_names(opt_view(*mcp_config)),
                    names.len() == servers@.len(),
                    forall|j: int| 0 <= j < servers@.len() ==> #[trigger] names[j] == servers@[j].0@,
                    extensions_are_mcp_servers(extensions@, names.subrange(0, i as int)),
            {
                extensions.push(
                    ExtensionEntry {
                        name: servers[i].0.clone(),
                        kind: String::from_str("mcp"),
                        enabled: true,
                    },
                );
            }
            assert(names.subrange(0, servers@.len() as int) =~= names);
        }
    }
    extensions
}

/// Whether `cfg` is the configuration for the layered `settings` and the
/// `mcp_config` document: none when neither exists; otherwise the model,
/// thinking effort and extra fields of the settings (none without them), no
/// system prompt, and one enabled `mcp` extension per listed server.
pub open spec fn config_matches(cfg: Option<RuntimeFileConfig>, settings: Option<JVal>, mcp_config: Option<JVal>) -> bool {
    &&& cfg is None <==> (settings is None && mcp_config is None)
    &&& cfg matches Some(c) ==> {
        &&& match settings {
            Some(s) => {
                &&& opt_text(c.model) == spec_json_string(s, "model"@)
                &&& opt_text(c.thinking_effort) == spec_json_string(s, "effortLevel"@)
                &&& pairs_view(c.extra@) == spec_extract_config_fields(s, normalized_keys())
            },
            None => c.model is None && c.thinking_effort is None && c.extra@.len() == 0,
        }
        &&& c.system_prompt is None
        &&& extensions_are_mcp_servers(c.extensions@, mcp_server_names(mcp_config))
    }
}

/// The configuration for settings layered from the user and project
/// documents and the MCP server list of the home-directory document: none
/// when neither settings nor server list exist.
pub fn config_from_documents(
    user_settings: Option<JsonValue>,
    project_settings: Option<JsonValue>,
    mcp_config: Option<JsonValue>,
) -> (cfg: Option<RuntimeFileConfig>)
    ensures
        config_matches(
            cfg,
            spec_merge_settings(opt_view(user_settings), opt_view(project_settings)),
            opt_view(mcp_config),
        ),
{
    let settings = merge_settings(user_settings, project_settings);
    if settings.is_none() && mcp_config.is_none() {
        return None;
    }
    let mut cfg = RuntimeFileConfig::default();
    if let Some(s) = &settings {
        apply_settings(&mut cfg, s);
    }
    cfg.extensions = mcp_extensions(&mcp_config);
    Some(cfg)
}

/// The document a file's text holds: none for a file that could not be read
/// or is not JSON.
pub open spec fn parsed_text(text: Option<&str>) -> Option<JVal> {
    match text {
        Some(t) => spec_parse_json(t@),
        None => None,
    }
}

fn parse_text(text: Option<&str>) -> (doc: Option<JsonValue>)
    ensures
        opt_view(doc) == parsed_text(text),
{
    match text {
        Some(t) => parse_json(t),
        None => None,
    }
}

/// The configuration for the texts of the user's settings file, the
/// project's settings file and the home-directory document (each `None`
/// when the file could not be read): each text is parsed as JSON, a text
/// that is not JSON counting as no document, and the documents are layered
/// as `config_from_documents` does.
pub fn config_from_texts(
    user_settings: Option<&str>,
    project_settings: Option<&str>,
    mcp_config: Option<&str>,
) -> (cfg: Option<RuntimeFileConfig>)
    ensures
        config_matches(
            cfg,
            spec_merge_settings(parsed_text(user_settings), parsed_text(project_settings)),
            parsed_text(mcp_config),
        ),
{
    let user = parse_text(user_settings);
    let project = parse_text(project_settings);
    let mcp = parse_text(mcp_config);
    config_from_documents(user, project, mcp)
}

/// Whether the project's settings file is read: only when it is not the
/// user's settings file itself (an agent working in the home directory), so
/// that the user file is never layered over itself. Paths compare by their
/// components.
pub fn reads_project_file(user_settings_path: &str, project_settings_path: &str) -> (read: bool)
    ensures
        read == (path_components(project_settings_path@) != path_components(user_settings_path@)),
{
    !path_eq(&parse_path(project_settings_path), &parse_path(user_settings_path))
}

proof fn lemma_config_field_names(entries: Seq<(Seq<char>, JVal)>, skip: Seq<Seq<char>>)
    ensures
        forall|i: int| 0 <= i < config_fields(entries, skip).len() ==> {
            let name = (#[trigger] config_fields(entries, skip)[i]).0;
            !skip.contains(name) || name.contains('.')
        },
    decreases entries.len(),
{
    if entries.len() > 0 {
        let front = entries.drop_last();
        lemma_config_field_names(front, skip);
        let key = entries.last().0;
        let v = entries.last().1;
        let cf = config_fields(front, skip);
        if !skip.contains(key) {
            let own = setting_fields(key, v);
            let all = cf + own;
            assert forall|i: int| 0 <= i < all.len() implies {
                let name = (#[trigger] all[i]).0;
                !skip.contains(name) || name.contains('.')
            } by {
                if i >= cf.len() {
                    let m = i - cf.len();
                    assert(all[i] == own[m]);
                    if let JVal::Object(sub) = v {
                        if sub.len() > 0 {
                            let name = key + "."@ + sub[m].0;
                            assert(own[m].0 == name);
                            reveal_strlit(".");
                            assert(name[key.len() as int] == '.');
                        }
                    }
                }
            }
        }
    }
}

/// The model and the effort level have fields of their own and never show up
/// among the extra fields, at any settings.
pub proof fn law_normalized_keys_not_in_extra(settings: JVal)
    ensures
        forall|i: int| 0 <= i < spec_extract_config_fields(settings, normalized_keys()).len() ==> {
            let name = (#[trigger] spec_extract_config_fields(settings, normalized_keys())[i]).0;
            name != "model"@ && name != "effortLevel"@
        },
{
    reveal_strlit("model");
    reveal_strlit("effortLevel");
    let skip = normalized_keys();
    assert(skip[0] == "model"@);
    assert(skip[1] == "effortLevel"@);
    assert(skip.contains("model"@));
    assert(skip.contains("effortLevel"@));
    assert(!"model"@.contains('.'));
    assert(!"effortLevel"@.contains('.'));
    if let JVal::Object(entries) = settings {
        lemma_config_field_names(entries, skip);
    }
}

/// A field name up to its first dot.
pub open spec fn before_dot(s: Seq<char>) -> Seq<char>
    decreases s.len(),
{
    if s.len() == 0 {
        s
    } else if s[0] == '.' {
        Seq::empty()
    } else {
        seq![s[0]] + before_dot(s.drop_first())
    }
}

proof fn lemma_before_dot(k: Seq<char>, rest: Seq<char>)
    requires
        !k.contains('.'),
    ensures
        before_dot(k) == k,
        before_dot(k + seq!['.'] + rest) == k,
    decreases k.len(),
{
    if k.len() == 0 {
        assert(k + seq!['.'] + rest =~= seq!['.'] + rest);
        assert((seq!['.'] + rest)[0] == '.');
    } else {
        let t = k.drop_first();
        assert(!t.contains('.')) by {
            if t.contains('.') {
                let j = choose|j: int| 0 <= j < t.len() && t[j] == '.';
                assert(k[j + 1] == '.');
            }
        }
        assert(k[0] != '.');
        lemma_before_dot(t, rest);
        assert((k + seq!['.'] + rest).drop_first() =~= t + seq!['.'] + rest);
        assert((k + seq!['.'] + rest)[0] == k[0]);
        assert(seq![k[0]] + t =~= k);
    }
}

/// No two fields share a name.
pub open spec fn names_distinct(fields: Seq<(Seq<char>, Seq<char>)>) -> bool {
    forall|i: int, j: int| 0 <= i < j < fields.len() ==> fields[i].0 != fields[j].0
}

proof fn lemma_setting_fields_names(key: Seq<char>, v: JVal)
    requires
        !key.contains('.'),
        json_wf(v),
    ensures
        names_distinct(setting_fields(key, v)),
        forall|i: int| 0 <= i < setting_fields(key, v).len() ==> before_dot(
            (#[trigger] setting_fields(key, v)[i]).0,
        ) == key,
{
    reveal_strlit(".");
    assert("."@ == seq!['.']);
    lemma_before_dot(key, Seq::empty());
    let f = setting_fields(key, v);
    if let JVal::Object(sub) = v {
        lemma_sorted_keys_unique(sub);
        if sub.len() > 0 {
            assert forall|i: int| 0 <= i < f.len() implies before_dot((#[trigger] f[i]).0) == key by {
                lemma_before_dot(key, sub[i].0);
            }
            assert forall|i: int, j: int| 0 <= i < j < f.len() implies f[i].0 != f[j].0 by {
                assert(sub[i].0 != sub[j].0);
                if f[i].0 == f[j].0 {
                    let n = key.len() + 1;
                    assert(f[i].0.subrange(n as int, f[i].0.len() as int) =~= sub[i].0);
                    assert(f[j].0.subrange(n as int, f[j].0.len() as int) =~= sub[j].0);
                }
            }
        }
    }
}

proof fn lemma_config_fields_names(entries: Seq<(Seq<char>, JVal)>, skip: Seq<Seq<char>>)
    requires
        keys_unique(entries),
        entries_wf(entries),
        forall|i: int| 0 <= i < entries.len() ==> !(#[trigger] entries[i].0).contains('.'),
    ensures
        names_distinct(config_fields(entries, skip)),
        forall|i: int| 0 <= i < config_fields(entries, skip).len() ==> has_key(
            entries,
            before_dot((#[trigger] config_fields(entries, skip)[i]).0),
        ),
    decreases entries.len(),
{
    if entries.len() > 0 {
        let front = entries.drop_last();
        let n = entries.len() - 1;
        let key = entries[n].0;
        let v = entries[n].1;
        assert(keys_unique(front));
        assert forall|i: int| 0 <= i < front.len() implies !(#[trigger] front[i].0).contains('.') by {
            assert(front[i] == entries[i]);
        }
        lemma_entries_wf(entries);
        lemma_entries_wf(front);
        assert forall|i: int| 0 <= i < front.len() implies json_wf(#[trigger] front[i].1) by {
            assert(front[i] == entries[i]);
        }
        lemma_config_fields_names(front, skip);
        let cf = config_fields(front, skip);
        assert forall|i: int| 0 <= i < cf.len() implies has_key(entries, before_dot((#[trigger] cf[i]).0)) by {
            let j = choose|j: int| 0 <= j < front.len() && front[j].0 == before_dot(cf[i].0);
            assert(entries[j] == front[j]);
        }
        if !skip.contains(key) {
            assert(json_wf(entries[n].1));
            lemma_setting_fields_names(key, v);
            let own = setting_fields(key, v);
            let all = cf + own;
            assert forall|i: int| 0 <= i < all.len() implies has_key(entries, before_dot((#[trigger] all[i]).0)) by {
                if i < cf.len() {
                    assert(all[i] == cf[i]);
                } else {
                    assert(all[i] == own[i - cf.len()]);
                }
            }
            assert forall|i: int, j: int| 0 <= i < j < all.len() implies all[i].0 != all[j].0 by {
                if j < cf.len() {
                    assert(all[i] == cf[i] && all[j] == cf[j]);
                } else if i >= cf.len() {
                    assert(all[i] == own[i - cf.len()] && all[j] == own[j - cf.len()]);
                } else {
                    assert(all[i] == cf[i] && all[j] == own[j - cf.len()]);
                    assert(before_dot(all[j].0) == key);
                    let m = choose|m: int| 0 <= m < front.len() && front[m].0 == before_dot(cf[i].0);
                    assert(entries[m].0 != entries[n].0);
                }
            }
        }
    }
}

/// The extra fields of well-formed settings have distinct names whenever no
/// top-level key holds a dot. (A top-level key `a.b` would share its name
/// with the entry `b` of an object under `a`.)
pub proof fn law_extra_names_distinct(settings: JVal)
    requires
        json_wf(settings),
        settings matches JVal::Object(entries) && forall|i: int|
            0 <= i < entries.len() ==> !(#[trigger] entries[i].0).contains('.'),
    ensures
        names_distinct(spec_extract_config_fields(settings, normalized_keys())),
{
    if let JVal::Object(entries) = settings {
        lemma_sorted_keys_unique(entries);
        lemma_config_fields_names(entries, normalized_keys());
    }
}


/// A boolean setting reads as its value: `true` as "true", `false` as
/// "false", and the two texts differ.
pub proof fn law_boolean_setting_reads_as_its_value(key: Seq<char>, b: bool)
    ensures
        setting_fields(key, JVal::Bool(b)) == seq![(key, if b { "true"@ } else { "false"@ })],
        "true"@ != "false"@,
{
    reveal_strlit("true");
    reveal_strlit("false");
    assert("true"@[0] != "false"@[0]);
}

/// Flattening an object one level names each entry `<key>.<entry>` and gives
/// it the same text that entry's value has as a top-level setting (for a
/// value that is not itself an object with entries, which reads as a
/// placeholder): one field per entry, in order.
pub proof fn law_nested_field_reads_as_top_level(key: Seq<char>, sub: Seq<(Seq<char>, JVal)>, i: int)
    requires
        sub.len() > 0,
        0 <= i < sub.len(),
    ensures
        setting_fields(key, JVal::Object(sub)).len() == sub.len(),
        setting_fields(key, JVal::Object(sub))[i].0 == key + "."@ + sub[i].0,
        !(sub[i].1 matches JVal::Object(inner) && inner.len() > 0) ==> setting_fields(
            key,
            JVal::Object(sub),
        )[i].1 == setting_fields(sub[i].0, sub[i].1)[0].1,
        sub[i].1 matches JVal::Bool(b) ==> setting_fields(key, JVal::Object(sub))[i].1 == if b {
            "true"@
        } else {
            "false"@
        },
{
}

/// One `mcp` extension per entry of the `mcpServers` object, named by its
/// key, in order, whatever each server's settings are.
pub proof fn law_one_extension_per_server(doc: JVal, servers: Seq<(Seq<char>, JVal)>, extensions: Seq<ExtensionEntry>)
    requires
        object_get(doc, "mcpServers"@) == Some(JVal::Object(servers)),
        extensions_are_mcp_servers(extensions, mcp_server_names(Some(doc))),
    ensures
        extensions.len() == servers.len(),
        forall|i: int| 0 <= i < servers.len() ==> {
            &&& (#[trigger] extensions[i]).name@ == servers[i].0
            &&& extensions[i].kind@ == "mcp"@
            &&& extensions[i].enabled
        },
{
}


proof fn lemma_trim_start(s: Seq<char>)
    ensures
        trim_start(s).len() > 0 ==> !is_white_space(trim_start(s)[0]),
        s.len() > 0 && !is_white_space(s[0]) ==> trim_start(s) == s,
    decreases s.len(),
{
    if s.len() > 0 && is_white_space(s[0]) {
        lemma_trim_start(s.drop_first());
    }
}

proof fn lemma_trim_end(s: Seq<char>)
    ensures
        trim_end(s).len() <= s.len(),
        trim_end(s) == s.subrange(0, trim_end(s).len() as int),
        trim_end(s).len() > 0 ==> !is_white_space(trim_end(s).last()),
        s.len() > 0 && !is_white_space(s.last()) ==> trim_end(s) == s,
    decreases s.len(),
{
    if s.len() > 0 && is_white_space(s.last()) {
        lemma_trim_end(s.drop_last());
        let t = trim_end(s.drop_last());
        assert(s.drop_last().subrange(0, t.len() as int) =~= s.subrange(0, t.len() as int));
    } else {
        assert(s.subrange(0, s.len() as int) =~= s);
    }
}

/// A string setting read with `json_string` is never blank and has no white
/// space at either end; a string setting that is non-empty and has no white
/// space at its ends is read as it is; anything that is not a string is not
/// read.
pub proof fn law_json_string_is_trimmed(val: JVal, key: Seq<char>)
    ensures
        spec_json_string(val, key) matches Some(t) ==> t.len() > 0 && !is_white_space(t[0])
            && !is_white_space(t.last()),
        object_get(val, key) matches Some(JVal::Str(s)) ==> (s.len() > 0 && !is_white_space(s[0])
            && !is_white_space(s.last()) ==> spec_json_string(val, key) == Some(s)),
        !(object_get(val, key) matches Some(JVal::Str(_))) ==> spec_json_string(val, key) is None,
{
    if let Some(JVal::Str(s)) = object_get(val, key) {
        lemma_trim_start(s);
        let a = trim_start(s);
        lemma_trim_end(a);
        let t = trim_end(a);
        if t.len() > 0 {
            assert(t[0] == a[0]);
        }
        if s.len() > 0 && !is_white_space(s[0]) && !is_white_space(s.last()) {
            assert(a == s);
            lemma_trim_end(s);
        }
    }
}

} // verus!
