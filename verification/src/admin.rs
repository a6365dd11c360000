//! Administration: topics, partitions, groups and configurations to create, alter and
//! delete.

use vstd::prelude::*;
use vstd::string::*;

use crate::error::{agrees, OpError};
use crate::json::{group_members, member_views, views, Json, JsonView};
use crate::number::{signed32, truncate};
use crate::resource::{
    law_asked_is_specified, make_specifier, resource_parts, resource_request, specified,
    ResourceSpecifier, ResourceView,
};
use crate::text::{concat3, lemma_first_index, opt_text, split_first, split_once, texts};

verus! {

/// What to ask of a cluster from the command line.
#[derive(Debug)]
pub enum AdminCmd {
    /// List all topics.
    Topics,
    /// Tell all about one topic: partitions, replicas, leaders.
    Describe { topic: String },
    /// List consumer groups.
    Groups,
    /// Tell about the cluster: its brokers and the one that answered.
    Cluster,
    /// Tell how far a group is behind, in one topic or in all.
    Lag { group: String, topic: Option<String> },
    /// Create a topic.
    CreateTopic {
        name: String,
        partitions: i32,
        replication: i32,
        /// Configuration entries, each of the form `K=V`.
        configs: Vec<String>,
    },
    /// Delete a topic.
    DeleteTopic { name: String },
    /// Ask for an answer.
    Ping,
}

// ---- what is asked for ----

/// The text of a member that must be there.
fn required_text(opts: &Json, key: &str, message: &str) -> (r: Result<String, OpError>)
    ensures
        agrees(
            r,
            match opts@.text(key@) {
                Some(s) => Ok(s),
                None => Err(message@),
            },
        ),
{
    match opts.text(key) {
        Some(s) => Ok(s.to_owned()),
        None => Err(OpError::new(message)),
    }
}

/// The topic that must be named.
pub fn topic_request(opts: &Json) -> (r: Result<String, OpError>)
    ensures
        agrees(
            r,
            match opts@.text("topic"@) {
                Some(topic) => Ok(topic),
                None => Err("missing topic"@),
            },
        ),
{
    required_text(opts, "topic", "missing topic")
}

/// The topic to delete, which must be named.
pub fn delete_topic_request(opts: &Json) -> (r: Result<String, OpError>)
    ensures
        agrees(
            r,
            match opts@.text("name"@) {
                Some(name) => Ok(name),
                None => Err("missing name"@),
            },
        ),
{
    required_text(opts, "name", "missing name")
}

/// The entries of an object whose values are strings.
pub open spec fn text_entries(members: Seq<(Seq<char>, JsonView)>) -> Seq<(Seq<char>, Seq<char>)>
    decreases members.len(),
{
    if members.len() == 0 {
        Seq::empty()
    } else {
        let before = text_entries(members.drop_last());
        match members.last().1.as_str() {
            Some(s) => before.push((members.last().0, s)),
            None => before,
        }
    }
}

/// The models of configuration entries.
pub open spec fn entry_views(entries: Seq<(String, String)>) -> Seq<(Seq<char>, Seq<char>)> {
    entries.map_values(|e: (String, String)| (e.0@, e.1@))
}

fn entries_of(members: &Vec<(String, Json)>) -> (r: Vec<(String, String)>)
    ensures
        entry_views(r@) == text_entries(member_views(members@)),
{
    let ghost all = member_views(members@);
    let mut out: Vec<(String, String)> = Vec::new();
    let mut i: usize = 0;
    assert(all.take(0) =~= Seq::empty());
    assert(entry_views(out@) =~= Seq::empty());
    while i < members.len()
        invariant
            i <= members@.len(),
            all == member_views(members@),
            entry_views(out@) == text_entries(all.take(i as int)),
        decreases members@.len() - i,
    {
        proof {
            assert(all.take(i + 1).drop_last() =~= all.take(i as int));
            assert(all.take(i + 1).last() == (members@[i as int].0@, members@[i as int].1@));
        }
        if let Some(s) = members[i].1.as_str() {
            let entry = (members[i].0.clone(), s.to_owned());
            proof {
                assert(entry_views(out@.push(entry)) =~= entry_views(out@).push(
                    (entry.0@, entry.1@),
                ));
            }
            out.push(entry);
        }
        i = i + 1;
    }
    assert(all.take(i as int) =~= all);
    out
}

/// A topic to create.
#[derive(Debug)]
pub struct NewTopicRequest {
    pub name: String,
    pub partitions: i32,
    pub replication: i32,
    pub config: Vec<(String, String)>,
}

/// The model of a topic to create.
pub struct NewTopicView {
    pub name: Seq<char>,
    pub partitions: int,
    pub replication: int,
    pub config: Seq<(Seq<char>, Seq<char>)>,
}

impl View for NewTopicRequest {
    type V = NewTopicView;

    open spec fn view(&self) -> NewTopicView {
        NewTopicView {
            name: self.name@,
            partitions: self.partitions as int,
            replication: self.replication as int,
            config: entry_views(self.config@),
        }
    }
}

/// A number asked for, one where none is: of it the lower 32 bits count.
pub open spec fn asked_count(opts: JsonView, key: Seq<char>) -> int {
    match opts.signed(key) {
        Some(n) => signed32(n as int),
        None => 1,
    }
}

fn count_of(opts: &Json, key: &str) -> (r: i32)
    ensures
        r == asked_count(opts@, key@),
{
    match opts.signed(key) {
        Some(n) => truncate(n),
        None => 1,
    }
}

/// The topic to create: one partition and one replica where nothing else is said.
pub open spec fn create_topic_request(opts: JsonView) -> Result<NewTopicView, Seq<char>> {
    match opts.text("name"@) {
        None => Err("missing name"@),
        Some(name) => Ok(
            NewTopicView {
                name,
                partitions: asked_count(opts, "partitions"@),
                replication: asked_count(opts, "replication"@),
                config: match opts.members("config"@) {
                    Some(members) => text_entries(members),
                    None => Seq::empty(),
                },
            },
        ),
    }
}

impl NewTopicRequest {
    /// Reads which topic to create.
    pub fn request(opts: &Json) -> (r: Result<NewTopicRequest, OpError>)
        ensures
            agrees(r, create_topic_request(opts@)),
    {
        match opts.text("name") {
            None => Err(OpError::new("missing name")),
            Some(name) => {
                let config = match opts.members("config") {
                    Some(members) => entries_of(members),
                    None => {
                        let none: Vec<(String, String)> = Vec::new();
                        assert(entry_views(none@) =~= Seq::empty());
                        none
                    },
                };
                Ok(
                    NewTopicRequest {
                        name: name.to_owned(),
                        partitions: count_of(opts, "partitions"),
                        replication: count_of(opts, "replication"),
                        config,
                    },
                )
            },
        }
    }
}

/// The configuration entries that `K=V` flags stand for. A flag without `=` stands for
/// none.
pub open spec fn flag_entries(kvs: Seq<Seq<char>>) -> Seq<(Seq<char>, Seq<char>)>
    decreases kvs.len(),
{
    if kvs.len() == 0 {
        Seq::empty()
    } else {
        let before = flag_entries(kvs.drop_last());
        match split_first(kvs.last(), '=') {
            Some(entry) => before.push(entry),
            None => before,
        }
    }
}

/// Reads the configuration entries that `K=V` flags stand for.
pub fn parse_configs(kvs: &Vec<String>) -> (r: Vec<(String, String)>)
    ensures
        entry_views(r@) == flag_entries(texts(kvs@)),
{
    let ghost all = texts(kvs@);
    let mut out: Vec<(String, String)> = Vec::new();
    let mut i: usize = 0;
    assert(all.take(0) =~= Seq::empty());
    assert(entry_views(out@) =~= Seq::empty());
    while i < kvs.len()
        invariant
            i <= kvs@.len(),
            all == texts(kvs@),
            entry_views(out@) == flag_entries(all.take(i as int)),
        decreases kvs@.len() - i,
    {
        proof {
            assert(all.take(i + 1).drop_last() =~= all.take(i as int));
            assert(all.take(i + 1).last() == kvs@[i as int]@);
        }
        if let Some((k, v)) = split_once(kvs[i].as_str(), '=') {
            proof {
                assert(entry_views(out@.push((k, v))) =~= entry_views(out@).push((k@, v@)));
            }
            out.push((k, v));
        }
        i = i + 1;
    }
    assert(all.take(i as int) =~= all);
    out
}

/// The topic to give more partitions, and how many in all.
pub open spec fn create_partitions_request(opts: JsonView) -> Result<(Seq<char>, usize), Seq<char>> {
    match (opts.text("name"@), opts.unsigned("partitions"@)) {
        (None, _) => Err("missing name"@),
        (Some(_), None) => Err("missing partitions (new total partition count)"@),
        (Some(name), Some(n)) => Ok((name, n as usize)),
    }
}

/// Reads which topic to give more partitions.
pub fn parse_create_partitions(opts: &Json) -> (r: Result<(String, usize), OpError>)
    ensures
        match (r, create_partitions_request(opts@)) {
            (Ok((name, n)), Ok((m, k))) => name@ == m && n == k,
            (Err(e), Err(message)) => e@ == message,
            _ => false,
        },
{
    match (opts.text("name"), opts.unsigned("partitions")) {
        (None, _) => Err(OpError::new("missing name")),
        (Some(_), None) => Err(OpError::new("missing partitions (new total partition count)")),
        (Some(name), Some(n)) => Ok((name.to_owned(), n as usize)),
    }
}

/// The strings of a list.
pub open spec fn text_items(items: Seq<JsonView>) -> Seq<Seq<char>>
    decreases items.len(),
{
    if items.len() == 0 {
        Seq::empty()
    } else {
        let before = text_items(items.drop_last());
        match items.last().as_str() {
            Some(s) => before.push(s),
            None => before,
        }
    }
}

/// The groups to delete: there must be one at least.
pub open spec fn delete_groups_request(opts: JsonView) -> Result<Seq<Seq<char>>, Seq<char>> {
    match opts.items("groups"@) {
        None => Err("missing groups (array of group ids)"@),
        Some(items) => if text_items(items).len() == 0 {
            Err("groups must be a non-empty array of group ids"@)
        } else {
            Ok(text_items(items))
        },
    }
}

/// Reads which groups to delete.
pub fn parse_delete_groups(opts: &Json) -> (r: Result<Vec<String>, OpError>)
    ensures
        match (r, delete_groups_request(opts@)) {
            (Ok(groups), Ok(m)) => texts(groups@) == m,
            (Err(e), Err(message)) => e@ == message,
            _ => false,
        },
{
    let items = match opts.items("groups") {
        Some(items) => items,
        None => {
            return Err(OpError::new("missing groups (array of group ids)"));
        },
    };
    let ghost all = views(items@);
    let mut groups: Vec<String> = Vec::new();
    let mut i: usize = 0;
    assert(all.take(0) =~= Seq::empty());
    assert(texts(groups@) =~= Seq::empty());
    while i < items.len()
        invariant
            i <= items@.len(),
            all == views(items@),
            texts(groups@) == text_items(all.take(i as int)),
        decreases items@.len() - i,
    {
        proof {
            assert(all.take(i + 1).drop_last() =~= all.take(i as int));
            assert(all.take(i + 1).last() == items@[i as int]@);
        }
        if let Some(s) = items[i].as_str() {
            let group = s.to_owned();
            proof {
                assert(texts(groups@.push(group)) =~= texts(groups@).push(group@));
            }
            groups.push(group);
        }
        i = i + 1;
    }
    assert(all.take(i as int) =~= all);
    assert(texts(groups@).len() == groups@.len());
    if groups.len() == 0 {
        return Err(OpError::new("groups must be a non-empty array of group ids"));
    }
    Ok(groups)
}

/// The resource whose configuration is asked for.
pub open spec fn describe_configs_request(opts: JsonView) -> Result<ResourceView, Seq<char>> {
    match resource_request(opts) {
        Err(message) => Err(message),
        Ok((tag, id)) => specified(
            tag,
            match id {
                Some(n) => Some(n as i32),
                None => None,
            },
        ),
    }
}

/// Reads whose configuration is asked for.
pub fn parse_describe_configs(opts: &Json) -> (r: Result<ResourceSpecifier, OpError>)
    ensures
        agrees(r, describe_configs_request(opts@)),
{
    match resource_parts(opts) {
        Err(e) => Err(e),
        Ok((tag, id)) => make_specifier(tag.as_str(), id),
    }
}

/// The resource whose configuration to alter, and the entries to set.
pub open spec fn alter_configs_request(opts: JsonView) -> Result<
    (ResourceView, Seq<(Seq<char>, Seq<char>)>),
    Seq<char>,
> {
    match (resource_request(opts), opts.members("entries"@), describe_configs_request(opts)) {
        (Err(message), _, _) => Err(message),
        (Ok(_), None, _) => Err("missing entries (object of config key => value)"@),
        (Ok(_), Some(_), Err(message)) => Err(message),
        (Ok(_), Some(members), Ok(resource)) => Ok((resource, text_entries(members))),
    }
}

/// Reads whose configuration to alter, and how.
pub fn parse_alter_configs(opts: &Json) -> (r: Result<
    (ResourceSpecifier, Vec<(String, String)>),
    OpError,
>)
    ensures
        match (r, alter_configs_request(opts@)) {
            (Ok((resource, entries)), Ok((m, n))) => resource@ == m && entry_views(entries@) == n,
            (Err(e), Err(message)) => e@ == message,
            _ => false,
        },
{
    let (tag, id) = match resource_parts(opts) {
        Ok(parts) => parts,
        Err(e) => {
            return Err(e);
        },
    };
    let entries = match opts.members("entries") {
        Some(members) => entries_of(members),
        None => {
            return Err(OpError::new("missing entries (object of config key => value)"));
        },
    };
    match make_specifier(tag.as_str(), id) {
        Ok(resource) => Ok((resource, entries)),
        Err(e) => Err(e),
    }
}

// ---- what came of it ----

/// The names of what succeeded.
pub open spec fn successes(results: Seq<Result<String, (String, String)>>) -> Seq<Seq<char>>
    decreases results.len(),
{
    if results.len() == 0 {
        Seq::empty()
    } else {
        let before = successes(results.drop_last());
        match results.last() {
            Ok(name) => before.push(name@),
            Err(_) => before,
        }
    }
}

/// What failed, and why.
pub open spec fn failures(results: Seq<Result<String, (String, String)>>) -> Seq<Seq<char>>
    decreases results.len(),
{
    if results.len() == 0 {
        Seq::empty()
    } else {
        let before = failures(results.drop_last());
        match results.last() {
            Ok(_) => before,
            Err((name, text)) => before.push(name@ + ": "@ + text@),
        }
    }
}

/// Parts results into what succeeded and what failed.
pub fn part_results(results: &Vec<Result<String, (String, String)>>) -> (r: (
    Vec<String>,
    Vec<String>,
))
    ensures
        texts(r.0@) == successes(results@),
        texts(r.1@) == failures(results@),
{
    let mut done: Vec<String> = Vec::new();
    let mut errors: Vec<String> = Vec::new();
    let mut i: usize = 0;
    assert(results@.take(0) =~= Seq::empty());
    assert(texts(done@) =~= Seq::empty());
    assert(texts(errors@) =~= Seq::empty());
    while i < results.len()
        invariant
            i <= results@.len(),
            texts(done@) == successes(results@.take(i as int)),
            texts(errors@) == failures(results@.take(i as int)),
        decreases results@.len() - i,
    {
        assert(results@.take(i + 1).drop_last() =~= results@.take(i as int));
        match &results[i] {
            Ok(name) => {
                let name = name.clone();
                proof {
                    assert(texts(done@.push(name)) =~= texts(done@).push(name@));
                }
                done.push(name);
            },
            Err((name, text)) => {
                let error = concat3(name.as_str(), ": ", text.as_str());
                proof {
                    assert(texts(errors@.push(error)) =~= texts(errors@).push(error@));
                }
                errors.push(error);
            },
        }
        i = i + 1;
    }
    assert(results@.take(i as int) =~= results@);
    (done, errors)
}

/// Every result is either a success or a failure.
pub proof fn law_results_parted(results: Seq<Result<String, (String, String)>>)
    ensures
        successes(results).len() + failures(results).len() == results.len(),
    decreases results.len(),
{
    if results.len() > 0 {
        law_results_parted(results.drop_last());
    }
}

/// The answer to a change: what succeeded, under the name of the change, and what
/// failed.
pub open spec fn change_answer(
    change: Seq<char>,
    results: Seq<Result<String, (String, String)>>,
) -> JsonView {
    JsonView::object().with(change, JsonView::strings(successes(results))).with(
        "errors"@,
        JsonView::strings(failures(results)),
    )
}

fn change_reply(change: &str, results: &Vec<Result<String, (String, String)>>) -> (r: Json)
    ensures
        r@ == change_answer(change@, results@),
{
    let (done, errors) = part_results(results);
    Json::object().with(change, Json::strings(&done)).with("errors", Json::strings(&errors))
}

/// The answer once topics were created.
pub fn create_topic_reply(results: &Vec<Result<String, (String, String)>>) -> (r: Json)
    ensures
        r@ == change_answer("created"@, results@),
{
    change_reply("created", results)
}

/// The answer once topics or groups were deleted.
pub fn delete_reply(results: &Vec<Result<String, (String, String)>>) -> (r: Json)
    ensures
        r@ == change_answer("deleted"@, results@),
{
    change_reply("deleted", results)
}

/// The answer once configurations were altered.
pub fn alter_configs_reply(results: &Vec<Result<String, (String, String)>>) -> (r: Json)
    ensures
        r@ == change_answer("altered"@, results@),
{
    change_reply("altered", results)
}

/// The answer to more partitions for a topic: the topic, what succeeded, and what failed.
pub open spec fn partitions_answer(
    topic: Seq<char>,
    results: Seq<Result<String, (String, String)>>,
) -> JsonView {
    JsonView::object().with("topic"@, JsonView::Str(topic)).with(
        "altered"@,
        JsonView::strings(successes(results)),
    ).with("errors"@, JsonView::strings(failures(results)))
}

/// The answer once a topic was given more partitions.
pub fn create_partitions_reply(
    topic: &str,
    results: &Vec<Result<String, (String, String)>>,
) -> (r: Json)
    ensures
        r@ == partitions_answer(topic@, results@),
        r@ == JsonView::object().with("topic"@, JsonView::Str(topic@)).with(
            "altered"@,
            JsonView::strings(successes(results@)),
        ).with("errors"@, JsonView::strings(failures(results@))),
{
    let (done, errors) = part_results(results);
    Json::object().with("topic", Json::str(topic)).with("altered", Json::strings(&done)).with(
        "errors",
        Json::strings(&errors),
    )
}

/// The line about a result: the name, and that the change was made; or that it was not
/// made, and why.
pub open spec fn shown_result(change: Seq<char>, result: Result<String, (String, String)>) -> JsonView {
    match result {
        Ok(name) => JsonView::object().with("name"@, JsonView::Str(name@)).with(
            change,
            JsonView::Bool(true),
        ),
        Err((name, text)) => JsonView::object().with("name"@, JsonView::Str(name@)).with(
            change,
            JsonView::Bool(false),
        ).with("error"@, JsonView::Str(text@)),
    }
}

fn result_line(change: &str, result: &Result<String, (String, String)>) -> (r: Json)
    ensures
        r@ == shown_result(change@, *result),
{
    match result {
        Ok(name) => Json::object().with("name", Json::str(name.as_str())).with(
            change,
            Json::Bool(true),
        ),
        Err((name, text)) => Json::object().with("name", Json::str(name.as_str())).with(
            change,
            Json::Bool(false),
        ).with("error", Json::str(text.as_str())),
    }
}

/// The line about a topic to create.
pub fn created_line(result: &Result<String, (String, String)>) -> (r: Json)
    ensures
        r@ == shown_result("created"@, *result),
{
    result_line("created", result)
}

/// The line about a topic to delete.
pub fn deleted_line(result: &Result<String, (String, String)>) -> (r: Json)
    ensures
        r@ == shown_result("deleted"@, *result),
{
    result_line("deleted", result)
}

// ---- configurations ----

/// An entry of a configuration.
#[derive(Debug, PartialEq, Eq)]
pub struct ConfigEntry {
    pub name: String,
    pub value: Option<String>,
    pub read_only: bool,
    pub is_default: bool,
    pub sensitive: bool,
}

/// The configuration of a resource, which is known by a text.
#[derive(Debug, PartialEq, Eq)]
pub struct ResourceConfig {
    pub resource: String,
    pub entries: Vec<ConfigEntry>,
}

/// An entry as an object.
pub open spec fn config_entry(e: ConfigEntry) -> JsonView {
    JsonView::object().with("name"@, JsonView::Str(e.name@)).with(
        "value"@,
        JsonView::opt_str(opt_text(e.value)),
    ).with("read_only"@, JsonView::Bool(e.read_only)).with(
        "default"@,
        JsonView::Bool(e.is_default),
    ).with("sensitive"@, JsonView::Bool(e.sensitive))
}

/// A configuration as an object.
pub open spec fn resource_config(c: ResourceConfig) -> JsonView {
    JsonView::object().with("resource"@, JsonView::Str(c.resource@)).with(
        "entries"@,
        JsonView::Array(c.entries@.map_values(|e: ConfigEntry| config_entry(e))),
    )
}

fn show_config(c: &ResourceConfig) -> (r: Json)
    ensures
        r@ == resource_config(*c),
{
    let mut items: Vec<Json> = Vec::new();
    let mut i: usize = 0;
    while i < c.entries.len()
        invariant
            i <= c.entries@.len(),
            items@.len() == i,
            forall|j: int| 0 <= j < i ==> (#[trigger] items@[j])@ == config_entry(c.entries@[j]),
        decreases c.entries@.len() - i,
    {
        let e = &c.entries[i];
        let value = match &e.value {
            Some(v) => Json::str(v.as_str()),
            None => Json::Null,
        };
        items.push(
            Json::object().with("name", Json::str(e.name.as_str())).with("value", value).with(
                "read_only",
                Json::Bool(e.read_only),
            ).with("default", Json::Bool(e.is_default)).with("sensitive", Json::Bool(e.sensitive)),
        );
        i = i + 1;
    }
    assert(views(items@) =~= c.entries@.map_values(|e: ConfigEntry| config_entry(e)));
    Json::object().with("resource", Json::str(c.resource.as_str())).with(
        "entries",
        Json::array(items),
    )
}

/// The configurations that were found.
pub open spec fn found_configs(results: Seq<Result<ResourceConfig, String>>) -> Seq<JsonView>
    decreases results.len(),
{
    if results.len() == 0 {
        Seq::empty()
    } else {
        let before = found_configs(results.drop_last());
        match results.last() {
            Ok(c) => before.push(resource_config(c)),
            Err(_) => before,
        }
    }
}

/// Why others were not.
pub open spec fn config_errors(results: Seq<Result<ResourceConfig, String>>) -> Seq<Seq<char>>
    decreases results.len(),
{
    if results.len() == 0 {
        Seq::empty()
    } else {
        let before = config_errors(results.drop_last());
        match results.last() {
            Ok(_) => before,
            Err(text) => before.push(text@),
        }
    }
}

/// The answer about configurations: those that were found, and why others were not.
pub open spec fn configs_answer(results: Seq<Result<ResourceConfig, String>>) -> JsonView {
    JsonView::object().with("resources"@, JsonView::Array(found_configs(results))).with(
        "errors"@,
        JsonView::strings(config_errors(results)),
    )
}

/// The answer about configurations.
pub fn describe_configs_reply(results: &Vec<Result<ResourceConfig, String>>) -> (r: Json)
    ensures
        r@ == configs_answer(results@),
        r@ == JsonView::object().with(
            "resources"@,
            JsonView::Array(found_configs(results@)),
        ).with("errors"@, JsonView::strings(config_errors(results@))),
{
    let mut resources: Vec<Json> = Vec::new();
    let mut errors: Vec<String> = Vec::new();
    let mut i: usize = 0;
    assert(results@.take(0) =~= Seq::empty());
    assert(views(resources@) =~= Seq::empty());
    assert(texts(errors@) =~= Seq::empty());
    while i < results.len()
        invariant
            i <= results@.len(),
            views(resources@) == found_configs(results@.take(i as int)),
            texts(errors@) == config_errors(results@.take(i as int)),
        decreases results@.len() - i,
    {
        assert(results@.take(i + 1).drop_last() =~= results@.take(i as int));
        match &results[i] {
            Ok(c) => {
                let shown = show_config(c);
                proof {
                    assert(views(resources@.push(shown)) =~= views(resources@).push(shown@));
                }
                resources.push(shown);
            },
            Err(text) => {
                let text = text.clone();
                proof {
                    assert(texts(errors@.push(text)) =~= texts(errors@).push(text@));
                }
                errors.push(text);
            },
        }
        i = i + 1;
    }
    assert(results@.take(i as int) =~= results@);
    Json::object().with("resources", Json::array(resources)).with(
        "errors",
        Json::strings(&errors),
    )
}

/// An entry of a configuration is shown by its name and its value, which is null exactly
/// where it has none, and by whether it is read only, a default, and sensitive.
pub proof fn law_config_entry_shown(e: ConfigEntry)
    ensures
        config_entry(e).get("name"@) == Some(JsonView::Str(e.name@)),
        match e.value {
            Some(v) => config_entry(e).get("value"@) == Some(JsonView::Str(v@)),
            None => config_entry(e).get("value"@) == Some(JsonView::Null),
        },
        config_entry(e).get("read_only"@) == Some(JsonView::Bool(e.read_only)),
        config_entry(e).get("default"@) == Some(JsonView::Bool(e.is_default)),
        config_entry(e).get("sensitive"@) == Some(JsonView::Bool(e.sensitive)),
{
    broadcast use group_members;

    reveal_strlit("name");
    reveal_strlit("value");
    reveal_strlit("read_only");
    reveal_strlit("default");
    reveal_strlit("sensitive");
    assert("name"@.len() == 4
        && "value"@.len() == 5
        && "read_only"@.len() == 9
        && "default"@.len() == 7
        && "sensitive"@.len() == 9);
    assert("read_only"@[0] == 'r');
    assert("sensitive"@[0] == 's');
}

/// A configuration is shown by the text that it is known by, and by its entries in their
/// order.
pub proof fn law_config_shown(c: ResourceConfig, i: int)
    ensures
        resource_config(c).get("resource"@) == Some(JsonView::Str(c.resource@)),
        resource_config(c).get("entries"@) matches Some(JsonView::Array(entries)) && entries.len()
            == c.entries@.len() && (0 <= i < entries.len() ==> {
            let e = c.entries@[i];
            &&& entries[i].get("name"@) == Some(JsonView::Str(e.name@))
            &&& match e.value {
                Some(v) => entries[i].get("value"@) == Some(JsonView::Str(v@)),
                None => entries[i].get("value"@) == Some(JsonView::Null),
            }
            &&& entries[i].get("read_only"@) == Some(JsonView::Bool(e.read_only))
            &&& entries[i].get("default"@) == Some(JsonView::Bool(e.is_default))
            &&& entries[i].get("sensitive"@) == Some(JsonView::Bool(e.sensitive))
        }),
{
    broadcast use group_members;

    reveal_strlit("resource");
    reveal_strlit("entries");
    assert("resource"@.len() == 8
        && "entries"@.len() == 7);
    if 0 <= i < c.entries@.len() {
        law_config_entry_shown(c.entries@[i]);
    }
}

/// Where entries of two configurations are shown alike, they have the same name and the
/// same value.
pub proof fn law_config_entries_told_apart(a: ConfigEntry, b: ConfigEntry)
    requires
        config_entry(a) == config_entry(b),
    ensures
        a.name@ == b.name@,
        opt_text(a.value) == opt_text(b.value),
        a.read_only == b.read_only,
        a.is_default == b.is_default,
        a.sensitive == b.sensitive,
{
    law_config_entry_shown(a);
    law_config_entry_shown(b);
}

/// The answer about configurations grows by each result: one that was found is shown
/// behind those before it, with its own name and entries, and one that was not adds its
/// reason to the errors.
pub proof fn law_configs_answered(
    results: Seq<Result<ResourceConfig, String>>,
    result: Result<ResourceConfig, String>,
    i: int,
)
    ensures
        configs_answer(Seq::empty()).get("resources"@) matches Some(JsonView::Array(none))
            && none.len() == 0,
        configs_answer(Seq::empty()).get("errors"@) matches Some(JsonView::Array(none))
            && none.len() == 0,
        configs_answer(results).get("resources"@) matches Some(JsonView::Array(before))
            && configs_answer(results.push(result)).get("resources"@) matches Some(
            JsonView::Array(after),
        ) && match result {
            Ok(c) => after.drop_last() == before && after.len() == before.len() + 1
                && after.last().get("resource"@) == Some(JsonView::Str(c.resource@))
                && match after.last().get("entries"@) {
                Some(JsonView::Array(entries)) => entries.len() == c.entries@.len() && (0 <= i
                    < entries.len() ==> entries[i].get("name"@) == Some(
                    JsonView::Str(c.entries@[i].name@),
                ) && match c.entries@[i].value {
                    Some(v) => entries[i].get("value"@) == Some(JsonView::Str(v@)),
                    None => entries[i].get("value"@) == Some(JsonView::Null),
                }),
                _ => false,
            },
            Err(_) => after == before,
        },
        configs_answer(results).get("errors"@) matches Some(JsonView::Array(before))
            && configs_answer(results.push(result)).get("errors"@) matches Some(
            JsonView::Array(after),
        ) && match result {
            Ok(_) => after == before,
            Err(text) => after == before.push(JsonView::Str(text@)),
        },
{
    broadcast use group_members;

    reveal_strlit("resources");
    reveal_strlit("errors");
    assert("resources"@.len() == 9
        && "errors"@.len() == 6);
    assert(results.push(result).drop_last() =~= results);
    let before = found_configs(results);
    if let Ok(c) = result {
        law_config_shown(c, i);
        assert(before.push(resource_config(c)).drop_last() =~= before);
    }
    if let Err(text) = result {
        assert(JsonView::strings(config_errors(results).push(text@))->Array_0
            =~= JsonView::strings(config_errors(results))->Array_0.push(JsonView::Str(text@)));
    }
}

/// Results are parted one by one, in their order: a success adds its name to those that
/// succeeded, a failure its name and its reason to those that failed.
pub proof fn law_results_parted_in_order(
    results: Seq<Result<String, (String, String)>>,
    result: Result<String, (String, String)>,
)
    ensures
        successes(Seq::empty()).len() == 0,
        failures(Seq::empty()).len() == 0,
        match result {
            Ok(name) => successes(results.push(result)) == successes(results).push(name@)
                && failures(results.push(result)) == failures(results),
            Err((name, text)) => successes(results.push(result)) == successes(results) && failures(
                results.push(result),
            ) == failures(results).push(name@ + ": "@ + text@),
        },
{
    assert(results.push(result).drop_last() =~= results);
}

/// The answer to a change names what succeeded under the name of the change, and what
/// failed under `errors`.
pub proof fn law_change_answered(
    change: Seq<char>,
    results: Seq<Result<String, (String, String)>>,
    i: int,
)
    requires
        change != "errors"@,
    ensures
        change_answer(change, results).get(change) matches Some(JsonView::Array(done))
            && done.len() == successes(results).len() && (0 <= i < done.len() ==> done[i]
            == JsonView::Str(successes(results)[i])),
        change_answer(change, results).get("errors"@) matches Some(JsonView::Array(errors))
            && errors.len() == failures(results).len() && (0 <= i < errors.len() ==> errors[i]
            == JsonView::Str(failures(results)[i])),
{
    broadcast use group_members;

}

/// The line about a result has its name, says whether the change was made, and has the
/// reason exactly where it was not.
pub proof fn law_result_shown(change: Seq<char>, result: Result<String, (String, String)>)
    requires
        change != "name"@,
        change != "error"@,
    ensures
        match result {
            Ok(name) => shown_result(change, result).get("name"@) == Some(JsonView::Str(name@))
                && shown_result(change, result).get(change) == Some(JsonView::Bool(true))
                && shown_result(change, result).get("error"@) is None,
            Err((name, text)) => shown_result(change, result).get("name"@) == Some(
                JsonView::Str(name@),
            ) && shown_result(change, result).get(change) == Some(JsonView::Bool(false))
                && shown_result(change, result).get("error"@) == Some(JsonView::Str(text@)),
        },
{
    broadcast use group_members;

    reveal_strlit("name");
    reveal_strlit("error");
    assert("name"@.len() == 4
        && "error"@.len() == 5);
}

/// The topic to create is the one named, with as many partitions and replicas as asked
/// for, one where nothing is, of which 32 bits count. Without the text of a name it is
/// refused.
pub proof fn law_create_topic_as_asked(opts: JsonView)
    ensures
        match opts.get("name"@) {
            Some(JsonView::Str(name)) => create_topic_request(opts) matches Ok(topic) && topic.name
                == name,
            _ => create_topic_request(opts) == Err::<NewTopicView, Seq<char>>("missing name"@),
        },
        create_topic_request(opts) matches Ok(topic) ==> {
            &&& i32::MIN <= topic.partitions <= i32::MAX
            &&& match opts.get("partitions"@) {
                Some(JsonView::Int(n)) if i64::MIN <= n <= i64::MAX => (n - topic.partitions)
                    % 0x1_0000_0000 == 0,
                _ => topic.partitions == 1,
            }
            &&& i32::MIN <= topic.replication <= i32::MAX
            &&& match opts.get("replication"@) {
                Some(JsonView::Int(n)) if i64::MIN <= n <= i64::MAX => (n - topic.replication)
                    % 0x1_0000_0000 == 0,
                _ => topic.replication == 1,
            }
            &&& match opts.get("config"@) {
                Some(JsonView::Object(members)) => topic.config == text_entries(members),
                _ => topic.config.len() == 0,
            }
        },
{
}

/// The entries of an object are its members with texts, one after the other; a member
/// that is no text is left out.
pub proof fn law_text_entries(members: Seq<(Seq<char>, JsonView)>, key: Seq<char>, value: JsonView)
    ensures
        text_entries(Seq::empty()).len() == 0,
        match value {
            JsonView::Str(s) => text_entries(members.push((key, value))) == text_entries(
                members,
            ).push((key, s)),
            _ => text_entries(members.push((key, value))) == text_entries(members),
        },
{
    assert(members.push((key, value)).drop_last() =~= members);
}

/// Flags stand for entries one after the other: `K=V` for one with that key and value,
/// also where the value holds another `=`; a flag without `=` for none.
pub proof fn law_flag_entries(kvs: Seq<Seq<char>>, key: Seq<char>, value: Seq<char>)
    requires
        !key.contains('='),
    ensures
        flag_entries(Seq::empty()).len() == 0,
        flag_entries(kvs.push(key + seq!['='] + value)) == flag_entries(kvs).push((key, value)),
        flag_entries(kvs.push(key)) == flag_entries(kvs),
{
    let flag = key + seq!['='] + value;
    assert(flag[key.len() as int] == '=');
    assert forall|j: int| 0 <= j < key.len() implies flag[j] != '=' by {
        assert(flag[j] == key[j]);
        assert(key.contains(key[j]));
    }
    lemma_first_index(flag, '=', key.len() as int);
    assert(flag.take(key.len() as int) =~= key);
    assert(flag.skip(key.len() as int + 1) =~= value);
    assert(kvs.push(flag).drop_last() =~= kvs);
    assert(kvs.push(key).drop_last() =~= kvs);
    key.index_of_first_ensures('=');
}

/// The model of a topic to create holds what it holds.
pub proof fn law_new_topic_model(topic: NewTopicRequest, i: int)
    ensures
        topic@.name == topic.name@,
        topic@.partitions == topic.partitions,
        topic@.replication == topic.replication,
        topic@.config.len() == topic.config@.len(),
        0 <= i < topic.config@.len() ==> topic@.config[i] == (
            topic.config@[i].0@,
            topic.config@[i].1@,
        ),
{
}

/// The topic to give more partitions is the one named, with the number in all that is
/// asked for. Without the text of a name, or without that number, it is refused.
pub proof fn law_create_partitions_as_asked(opts: JsonView)
    ensures
        match (opts.get("name"@), opts.get("partitions"@)) {
            (Some(JsonView::Str(name)), Some(JsonView::Int(n))) => if 0 <= n <= u64::MAX {
                create_partitions_request(opts) matches Ok((topic, count)) && topic == name && (n
                    <= usize::MAX ==> count == n)
            } else {
                create_partitions_request(opts) == Err::<(Seq<char>, usize), Seq<char>>(
                    "missing partitions (new total partition count)"@,
                )
            },
            (Some(JsonView::Str(_)), _) => create_partitions_request(opts) == Err::<
                (Seq<char>, usize),
                Seq<char>,
            >("missing partitions (new total partition count)"@),
            _ => create_partitions_request(opts) == Err::<(Seq<char>, usize), Seq<char>>(
                "missing name"@,
            ),
        },
{
}

/// The groups to delete are the texts under `groups`, in their order; without one, or
/// without an array, nothing is to be deleted.
pub proof fn law_delete_groups_as_asked(opts: JsonView)
    ensures
        match opts.get("groups"@) {
            Some(JsonView::Array(items)) => if exists|i: int|
                0 <= i < items.len() && (#[trigger] items[i]) is Str {
                delete_groups_request(opts) == Ok::<Seq<Seq<char>>, Seq<char>>(text_items(items))
            } else {
                delete_groups_request(opts) == Err::<Seq<Seq<char>>, Seq<char>>(
                    "groups must be a non-empty array of group ids"@,
                )
            },
            _ => delete_groups_request(opts) == Err::<Seq<Seq<char>>, Seq<char>>(
                "missing groups (array of group ids)"@,
            ),
        },
{
    if let Some(JsonView::Array(items)) = opts.get("groups"@) {
        lemma_text_items_some(items);
    }
}

proof fn lemma_text_items_some(items: Seq<JsonView>)
    ensures
        text_items(items).len() > 0 <==> exists|i: int|
            0 <= i < items.len() && (#[trigger] items[i]) is Str,
    decreases items.len(),
{
    if items.len() > 0 {
        let init = items.drop_last();
        lemma_text_items_some(init);
        assert forall|i: int| 0 <= i < init.len() implies #[trigger] init[i] == items[i] by {}
        if items.last() is Str {
            assert(items[items.len() - 1] is Str);
        }
        if exists|i: int| 0 <= i < init.len() && (#[trigger] init[i]) is Str {
            let i = choose|i: int| 0 <= i < init.len() && (#[trigger] init[i]) is Str;
            assert(items[i] is Str);
        }
        if exists|i: int| 0 <= i < items.len() && (#[trigger] items[i]) is Str {
            let i = choose|i: int| 0 <= i < items.len() && (#[trigger] items[i]) is Str;
            if i < init.len() {
                assert(init[i] is Str);
            }
        }
    }
}

/// The texts of a list are taken one after the other; an item that is no text is left
/// out.
pub proof fn law_text_items(items: Seq<JsonView>, item: JsonView)
    ensures
        text_items(Seq::empty()).len() == 0,
        match item {
            JsonView::Str(s) => text_items(items.push(item)) == text_items(items).push(s),
            _ => text_items(items.push(item)) == text_items(items),
        },
{
    assert(items.push(item).drop_last() =~= items);
}

/// The configuration asked for or altered is that of the resource named: a topic where
/// nothing else is said, or a group or a broker. What is set is the texts under
/// `entries`.
pub proof fn law_configs_as_asked(opts: JsonView)
    ensures
        match opts.get("resource_type"@) {
            Some(JsonView::Str(kind)) if kind == "group"@ => match opts.get("resource_name"@) {
                Some(JsonView::Str(name)) => describe_configs_request(opts) == Ok::<
                    ResourceView,
                    Seq<char>,
                >(ResourceView::Group(name)),
                _ => describe_configs_request(opts) is Err,
            },
            Some(JsonView::Str(kind)) if kind == "broker"@ => match opts.get("resource_name"@) {
                Some(JsonView::Int(id)) if i32::MIN <= id <= i32::MAX => describe_configs_request(
                    opts,
                ) == Ok::<ResourceView, Seq<char>>(ResourceView::Broker(id)),
                None => describe_configs_request(opts) is Err,
                _ => true,
            },
            Some(JsonView::Str(kind)) if kind != "topic"@ => describe_configs_request(opts) is Err,
            _ => match opts.get("resource_name"@) {
                Some(JsonView::Str(name)) => describe_configs_request(opts) == Ok::<
                    ResourceView,
                    Seq<char>,
                >(ResourceView::Topic(name)),
                _ => describe_configs_request(opts) is Err,
            },
        },
        match (describe_configs_request(opts), opts.get("entries"@)) {
            (Ok(resource), Some(JsonView::Object(members))) => alter_configs_request(opts) == Ok::<
                (ResourceView, Seq<(Seq<char>, Seq<char>)>),
                Seq<char>,
            >((resource, text_entries(members))),
            (Ok(_), _) => alter_configs_request(opts) matches Err(message) && message
                == "missing entries (object of config key => value)"@,
            (Err(_), _) => alter_configs_request(opts) is Err,
        },
{
    reveal_strlit("topic");
    reveal_strlit("group");
    reveal_strlit("broker");
    assert("topic"@.len() == 5
        && "group"@.len() == 5
        && "broker"@.len() == 6);
    assert("topic"@[0] == 't');
    assert("group"@[0] == 'g');
    if let Ok((tag, id)) = resource_request(opts) {
        let n: Option<i32> = match id {
            Some(n) => Some(n as i32),
            None => None,
        };
        law_asked_is_specified(opts, tag, n);
    }
}

/// The models of entries are theirs, in their order.
pub proof fn law_entry_models(entries: Seq<(String, String)>, i: int)
    ensures
        entry_views(entries).len() == entries.len(),
        0 <= i < entries.len() ==> entry_views(entries)[i] == (entries[i].0@, entries[i].1@),
{
}

/// The answer to more partitions names the topic, what succeeded under `altered`, and what
/// failed under `errors`.
pub proof fn law_partitions_answered(
    topic: Seq<char>,
    results: Seq<Result<String, (String, String)>>,
)
    ensures
        partitions_answer(topic, results).get("topic"@) == Some(JsonView::Str(topic)),
        partitions_answer(topic, results).get("altered"@) == Some(
            JsonView::strings(successes(results)),
        ),
        partitions_answer(topic, results).get("errors"@) == Some(
            JsonView::strings(failures(results)),
        ),
{
    broadcast use group_members;

    reveal_strlit("topic");
    reveal_strlit("altered");
    reveal_strlit("errors");
    assert("topic"@.len() == 5
        && "altered"@.len() == 7
        && "errors"@.len() == 6);
}

} // verus!
