//! What a cluster says of itself: its brokers, topics and groups.

use vstd::prelude::*;
use vstd::string::*;

use crate::error::{agrees, OpError};
use crate::json::{group_members, views, Json, JsonView};
use crate::number::{decimal, decimal_digit, lemma_decimal_reads_back, push_decimal};
use crate::partitions::topic_views;
use crate::text::{concat3, opt_text, str_eq};

verus! {

/// A broker of a cluster.
#[derive(Debug, PartialEq, Eq)]
pub struct BrokerMeta {
    pub id: i32,
    pub host: String,
    pub port: i32,
}

/// A partition of a topic.
#[derive(Debug, PartialEq, Eq)]
pub struct PartitionMeta {
    pub id: i32,
    pub leader: i32,
    pub replicas: Vec<i32>,
    pub isr: Vec<i32>,
    /// The text of the partition's error, if it has one.
    pub error: Option<String>,
}

/// A topic of a cluster.
#[derive(Debug, PartialEq, Eq)]
pub struct TopicMeta {
    pub name: String,
    pub partitions: Vec<PartitionMeta>,
    /// The text of the topic's error, if it has one.
    pub error: Option<String>,
}

/// What a cluster says of itself.
#[derive(Debug, PartialEq, Eq)]
pub struct ClusterMeta {
    pub brokers: Vec<BrokerMeta>,
    /// The broker that answered.
    pub origin: i32,
    pub topics: Vec<TopicMeta>,
}

/// A consumer group.
#[derive(Debug, PartialEq, Eq)]
pub struct GroupMeta {
    pub name: String,
    pub state: String,
    pub protocol: String,
    pub protocol_type: String,
    /// How many members it has.
    pub members: usize,
}

// ---- brokers ----

/// A broker as an object.
pub open spec fn broker_entry(b: BrokerMeta) -> JsonView {
    JsonView::object().with("id"@, JsonView::Int(b.id as int)).with(
        "host"@,
        JsonView::Str(b.host@),
    ).with("port"@, JsonView::Int(b.port as int))
}

/// The brokers as an array.
pub open spec fn broker_entries(brokers: Seq<BrokerMeta>) -> JsonView {
    JsonView::Array(brokers.map_values(|b: BrokerMeta| broker_entry(b)))
}

fn show_brokers(brokers: &Vec<BrokerMeta>) -> (r: Json)
    ensures
        r@ == broker_entries(brokers@),
{
    let mut items: Vec<Json> = Vec::new();
    let mut i: usize = 0;
    while i < brokers.len()
        invariant
            i <= brokers@.len(),
            items@.len() == i,
            forall|j: int| 0 <= j < i ==> (#[trigger] items@[j])@ == broker_entry(brokers@[j]),
        decreases brokers@.len() - i,
    {
        let b = &brokers[i];
        items.push(
            Json::object().with("id", Json::Int(b.id as i128)).with(
                "host",
                Json::str(b.host.as_str()),
            ).with("port", Json::Int(b.port as i128)),
        );
        i = i + 1;
    }
    assert(views(items@) =~= brokers@.map_values(|b: BrokerMeta| broker_entry(b)));
    Json::array(items)
}

/// The answer to a ping.
pub open spec fn ping_answer(cluster: ClusterMeta) -> JsonView {
    JsonView::object().with("ok"@, JsonView::Bool(true)).with(
        "broker_count"@,
        JsonView::Int(cluster.brokers@.len() as int),
    )
}

/// The answer to a ping: that there is one, and how many brokers there are.
pub fn ping_reply(cluster: &ClusterMeta) -> (r: Json)
    ensures
        r@ == ping_answer(*cluster),
        r@ == JsonView::object().with("ok"@, JsonView::Bool(true)).with(
            "broker_count"@,
            JsonView::Int(cluster.brokers@.len() as int),
        ),
{
    Json::object().with("ok", Json::Bool(true)).with(
        "broker_count",
        Json::Int(cluster.brokers.len() as i128),
    )
}

/// What the line that answers a ping says.
pub open spec fn ping_text(cluster: ClusterMeta) -> Seq<char> {
    "ok brokers="@ + decimal(cluster.brokers@.len()) + " topics="@ + decimal(cluster.topics@.len())
}

/// The line that answers a ping.
pub fn ping_line(cluster: &ClusterMeta) -> (r: String)
    ensures
        r@ == ping_text(*cluster),
        r@ == "ok brokers="@ + decimal(cluster.brokers@.len()) + " topics="@ + decimal(
            cluster.topics@.len(),
        ),
{
    let mut line = "ok brokers=".to_owned();
    push_decimal(&mut line, cluster.brokers.len() as u64);
    line.append(" topics=");
    push_decimal(&mut line, cluster.topics.len() as u64);
    line
}

/// The answer about a cluster.
pub open spec fn cluster_answer(cluster: ClusterMeta) -> JsonView {
    JsonView::object().with("brokers"@, broker_entries(cluster.brokers@)).with(
        "topic_count"@,
        JsonView::Int(cluster.topics@.len() as int),
    )
}

/// The answer about a cluster: its brokers, and how many topics it has.
pub fn cluster_reply(cluster: &ClusterMeta) -> (r: Json)
    ensures
        r@ == cluster_answer(*cluster),
        r@ == JsonView::object().with("brokers"@, broker_entries(cluster.brokers@)).with(
            "topic_count"@,
            JsonView::Int(cluster.topics@.len() as int),
        ),
{
    Json::object().with("brokers", show_brokers(&cluster.brokers)).with(
        "topic_count",
        Json::Int(cluster.topics.len() as i128),
    )
}

/// What the line about a cluster shows.
pub open spec fn cluster_shown(cluster: ClusterMeta) -> JsonView {
    JsonView::object().with("broker_count"@, JsonView::Int(cluster.brokers@.len() as int)).with(
        "controller_id"@,
        JsonView::Int(cluster.origin as int),
    ).with("brokers"@, broker_entries(cluster.brokers@)).with(
        "topic_count"@,
        JsonView::Int(cluster.topics@.len() as int),
    )
}

/// The line about a cluster, which also counts the brokers and names the one that
/// answered.
pub fn cluster_line(cluster: &ClusterMeta) -> (r: Json)
    ensures
        r@ == cluster_shown(*cluster),
        r@ == JsonView::object().with(
            "broker_count"@,
            JsonView::Int(cluster.brokers@.len() as int),
        ).with("controller_id"@, JsonView::Int(cluster.origin as int)).with(
            "brokers"@,
            broker_entries(cluster.brokers@),
        ).with("topic_count"@, JsonView::Int(cluster.topics@.len() as int)),
{
    Json::object().with("broker_count", Json::Int(cluster.brokers.len() as i128)).with(
        "controller_id",
        Json::Int(cluster.origin as i128),
    ).with("brokers", show_brokers(&cluster.brokers)).with(
        "topic_count",
        Json::Int(cluster.topics.len() as i128),
    )
}

// ---- topics ----

/// The names of topics.
pub open spec fn topic_names(topics: Seq<TopicMeta>) -> Seq<Seq<char>> {
    topics.map_values(|t: TopicMeta| t.name@)
}

/// The answer about topics.
pub open spec fn topics_answer(topics: Seq<TopicMeta>) -> JsonView {
    JsonView::object().with("topics"@, JsonView::strings(topic_names(topics)))
}

/// The answer about topics: their names.
pub fn topics_reply(cluster: &ClusterMeta) -> (r: Json)
    ensures
        r@ == topics_answer(cluster.topics@),
        r@ == JsonView::object().with(
            "topics"@,
            JsonView::strings(topic_names(cluster.topics@)),
        ),
{
    let mut items: Vec<Json> = Vec::new();
    let mut i: usize = 0;
    while i < cluster.topics.len()
        invariant
            i <= cluster.topics@.len(),
            items@.len() == i,
            forall|j: int|
                0 <= j < i ==> (#[trigger] items@[j])@ == JsonView::Str(cluster.topics@[j].name@),
        decreases cluster.topics@.len() - i,
    {
        items.push(Json::str(cluster.topics[i].name.as_str()));
        i = i + 1;
    }
    assert(views(items@) =~= topic_names(cluster.topics@).map_values(
        |s: Seq<char>| JsonView::Str(s),
    ));
    Json::object().with("topics", Json::array(items))
}

/// What the line about a topic shows.
pub open spec fn topic_shown(topic: TopicMeta) -> JsonView {
    JsonView::object().with("name"@, JsonView::Str(topic.name@)).with(
        "partitions"@,
        JsonView::Int(topic.partitions@.len() as int),
    ).with("error"@, JsonView::opt_str(opt_text(topic.error)))
}

/// The line about a topic: its name, how many partitions it has, and its error.
pub fn topic_line(topic: &TopicMeta) -> (r: Json)
    ensures
        r@ == topic_shown(*topic),
        r@ == JsonView::object().with("name"@, JsonView::Str(topic.name@)).with(
            "partitions"@,
            JsonView::Int(topic.partitions@.len() as int),
        ).with("error"@, JsonView::opt_str(opt_text(topic.error))),
{
    Json::object().with("name", Json::str(topic.name.as_str())).with(
        "partitions",
        Json::Int(topic.partitions.len() as i128),
    ).with("error", show_error(&topic.error))
}

fn show_error(error: &Option<String>) -> (r: Json)
    ensures
        r@ == JsonView::opt_str(opt_text(*error)),
{
    match error {
        Some(text) => Json::str(text.as_str()),
        None => Json::Null,
    }
}

/// A partition as an object; its error is shown only where that is asked for.
pub open spec fn partition_entry(p: PartitionMeta, with_error: bool) -> JsonView {
    let entry = JsonView::object().with("id"@, JsonView::Int(p.id as int)).with(
        "leader"@,
        JsonView::Int(p.leader as int),
    ).with("replicas"@, JsonView::ints(p.replicas@)).with("isr"@, JsonView::ints(p.isr@));
    if with_error {
        entry.with("error"@, JsonView::opt_str(opt_text(p.error)))
    } else {
        entry
    }
}

/// The partitions of a topic as an array.
pub open spec fn partition_entries(partitions: Seq<PartitionMeta>, with_error: bool) -> JsonView {
    JsonView::Array(partitions.map_values(|p: PartitionMeta| partition_entry(p, with_error)))
}

fn show_partitions(partitions: &Vec<PartitionMeta>, with_error: bool) -> (r: Json)
    ensures
        r@ == partition_entries(partitions@, with_error),
{
    let mut items: Vec<Json> = Vec::new();
    let mut i: usize = 0;
    while i < partitions.len()
        invariant
            i <= partitions@.len(),
            items@.len() == i,
            forall|j: int|
                0 <= j < i ==> (#[trigger] items@[j])@ == partition_entry(
                    partitions@[j],
                    with_error,
                ),
        decreases partitions@.len() - i,
    {
        let p = &partitions[i];
        let entry = Json::object().with("id", Json::Int(p.id as i128)).with(
            "leader",
            Json::Int(p.leader as i128),
        ).with("replicas", Json::ints(&p.replicas)).with("isr", Json::ints(&p.isr));
        if with_error {
            items.push(entry.with("error", show_error(&p.error)));
        } else {
            items.push(entry);
        }
        i = i + 1;
    }
    assert(views(items@) =~= partitions@.map_values(
        |p: PartitionMeta| partition_entry(p, with_error),
    ));
    Json::array(items)
}

/// The place of the first topic with a name.
pub open spec fn topic_place(topics: Seq<TopicMeta>, name: Seq<char>) -> Option<int>
    decreases topics.len(),
{
    if topics.len() == 0 {
        None
    } else {
        match topic_place(topics.drop_last(), name) {
            Some(i) => Some(i),
            None => if topics.last().name@ == name {
                Some(topics.len() - 1)
            } else {
                None
            },
        }
    }
}

/// What is said of a topic that is not there.
pub open spec fn not_found(name: Seq<char>) -> Seq<char> {
    "topic `"@ + name + "` not found"@
}

fn find_topic<'a>(topics: &'a Vec<TopicMeta>, name: &str) -> (r: Result<&'a TopicMeta, OpError>)
    ensures
        match (r, topic_place(topics@, name@)) {
            (Ok(t), Some(i)) => 0 <= i < topics@.len() && *t == topics@[i],
            (Err(e), None) => e@ == not_found(name@),
            _ => false,
        },
{
    let mut i: usize = 0;
    assert(topics@.take(0) =~= Seq::empty());
    while i < topics.len()
        invariant
            i <= topics@.len(),
            topic_place(topics@.take(i as int), name@) is None,
        decreases topics@.len() - i,
    {
        assert(topics@.take(i + 1).drop_last() =~= topics@.take(i as int));
        if str_eq(topics[i].name.as_str(), name) {
            proof {
                lemma_place_stays(topics@, name@, i + 1);
            }
            return Ok(&topics[i]);
        }
        i = i + 1;
    }
    assert(topics@.take(i as int) =~= topics@);
    Err(OpError { message: concat3("topic `", name, "` not found") })
}

/// The first topic with a name stays the first, whatever comes behind it.
proof fn lemma_place_stays(topics: Seq<TopicMeta>, name: Seq<char>, n: int)
    requires
        0 <= n <= topics.len(),
        topic_place(topics.take(n), name) is Some,
    ensures
        topic_place(topics, name) == topic_place(topics.take(n), name),
    decreases topics.len(),
{
    if n == topics.len() {
        assert(topics.take(n) =~= topics);
    } else {
        assert(topics.drop_last().take(n) =~= topics.take(n));
        lemma_place_stays(topics.drop_last(), name, n);
    }
}

/// A topic is found exactly where one has the name, and it is the first.
pub proof fn law_topic_place(topics: Seq<TopicMeta>, name: Seq<char>)
    ensures
        match topic_place(topics, name) {
            Some(i) => 0 <= i < topics.len() && topics[i].name@ == name && forall|j: int|
                0 <= j < i ==> (#[trigger] topics[j]).name@ != name,
            None => forall|j: int| 0 <= j < topics.len() ==> (#[trigger] topics[j]).name@ != name,
        },
    decreases topics.len(),
{
    if topics.len() > 0 {
        let init = topics.drop_last();
        law_topic_place(init, name);
        assert forall|j: int| 0 <= j < init.len() implies #[trigger] topics[j] == init[j] by {}
    }
}

/// The answer about one topic: its partitions.
pub open spec fn describe_answer(topics: Seq<TopicMeta>, name: Seq<char>) -> Result<
    JsonView,
    Seq<char>,
> {
    match topic_place(topics, name) {
        None => Err(not_found(name)),
        Some(i) => Ok(
            JsonView::object().with("topic"@, JsonView::Str(name)).with(
                "partition_count"@,
                JsonView::Int(topics[i].partitions@.len() as int),
            ).with("partitions"@, partition_entries(topics[i].partitions@, false)),
        ),
    }
}

/// Answers about one topic.
pub fn describe_reply(cluster: &ClusterMeta, name: &str) -> (r: Result<Json, OpError>)
    ensures
        agrees(r, describe_answer(cluster.topics@, name@)),
{
    match find_topic(&cluster.topics, name) {
        Err(e) => Err(e),
        Ok(t) => Ok(
            Json::object().with("topic", Json::str(name)).with(
                "partition_count",
                Json::Int(t.partitions.len() as i128),
            ).with("partitions", show_partitions(&t.partitions, false)),
        ),
    }
}

/// The line about one topic: its partitions, with their errors.
pub open spec fn describe_shown(topics: Seq<TopicMeta>, name: Seq<char>) -> Result<
    JsonView,
    Seq<char>,
> {
    match topic_place(topics, name) {
        None => Err(not_found(name)),
        Some(i) => Ok(
            JsonView::object().with("name"@, JsonView::Str(name)).with(
                "partition_count"@,
                JsonView::Int(topics[i].partitions@.len() as int),
            ).with("partitions"@, partition_entries(topics[i].partitions@, true)),
        ),
    }
}

/// Shows one topic.
pub fn describe_line(cluster: &ClusterMeta, name: &str) -> (r: Result<Json, OpError>)
    ensures
        agrees(r, describe_shown(cluster.topics@, name@)),
{
    match find_topic(&cluster.topics, name) {
        Err(e) => Err(e),
        Ok(t) => Ok(
            Json::object().with("name", Json::str(name)).with(
                "partition_count",
                Json::Int(t.partitions.len() as i128),
            ).with("partitions", show_partitions(&t.partitions, true)),
        ),
    }
}

/// The ids of partitions.
pub open spec fn ids(partitions: Seq<PartitionMeta>) -> Seq<i32> {
    partitions.map_values(|p: PartitionMeta| p.id)
}

fn ids_of(partitions: &Vec<PartitionMeta>) -> (r: Vec<i32>)
    ensures
        r@ == ids(partitions@),
{
    let mut out: Vec<i32> = Vec::new();
    let mut i: usize = 0;
    while i < partitions.len()
        invariant
            i <= partitions@.len(),
            out@ == ids(partitions@).take(i as int),
        decreases partitions@.len() - i,
    {
        out.push(partitions[i].id);
        i = i + 1;
        assert(out@ =~= ids(partitions@).take(i as int));
    }
    assert(ids(partitions@).take(i as int) =~= ids(partitions@));
    out
}

/// The ids of a topic's partitions.
pub fn topic_partition_ids(cluster: &ClusterMeta, name: &str) -> (r: Result<Vec<i32>, OpError>)
    ensures
        match (r, topic_place(cluster.topics@, name@)) {
            (Ok(list), Some(i)) => list@ == ids(cluster.topics@[i].partitions@),
            (Err(e), None) => e@ == not_found(name@),
            _ => false,
        },
{
    match find_topic(&cluster.topics, name) {
        Err(e) => Err(e),
        Ok(t) => Ok(ids_of(&t.partitions)),
    }
}

/// The topics with the ids of their partitions.
pub fn all_partition_ids(cluster: &ClusterMeta) -> (r: Vec<(String, Vec<i32>)>)
    ensures
        topic_views(r@) == cluster.topics@.map_values(
            |t: TopicMeta| (t.name@, ids(t.partitions@)),
        ),
{
    let mut out: Vec<(String, Vec<i32>)> = Vec::new();
    let mut i: usize = 0;
    let ghost all = cluster.topics@.map_values(|t: TopicMeta| (t.name@, ids(t.partitions@)));
    while i < cluster.topics.len()
        invariant
            i <= cluster.topics@.len(),
            out@.len() == i,
            all == cluster.topics@.map_values(|t: TopicMeta| (t.name@, ids(t.partitions@))),
            forall|j: int|
                0 <= j < i ==> ((#[trigger] out@[j]).0@, out@[j].1@) == all[j],
        decreases cluster.topics@.len() - i,
    {
        let t = &cluster.topics[i];
        out.push((t.name.clone(), ids_of(&t.partitions)));
        i = i + 1;
    }
    assert(topic_views(out@) =~= all);
    out
}

// ---- groups ----

/// A group as an object.
pub open spec fn group_entry(g: GroupMeta) -> JsonView {
    JsonView::object().with("name"@, JsonView::Str(g.name@)).with(
        "state"@,
        JsonView::Str(g.state@),
    ).with("protocol"@, JsonView::Str(g.protocol@)).with(
        "protocol_type"@,
        JsonView::Str(g.protocol_type@),
    ).with("members"@, JsonView::Int(g.members as int))
}

/// The line about a group.
pub fn group_line(g: &GroupMeta) -> (r: Json)
    ensures
        r@ == group_entry(*g),
{
    Json::object().with("name", Json::str(g.name.as_str())).with(
        "state",
        Json::str(g.state.as_str()),
    ).with("protocol", Json::str(g.protocol.as_str())).with(
        "protocol_type",
        Json::str(g.protocol_type.as_str()),
    ).with("members", Json::Int(g.members as i128))
}

/// The answer about groups.
pub open spec fn groups_answer(groups: Seq<GroupMeta>) -> JsonView {
    JsonView::object().with(
        "groups"@,
        JsonView::Array(groups.map_values(|g: GroupMeta| group_entry(g))),
    )
}

/// Answers about groups.
pub fn groups_reply(groups: &Vec<GroupMeta>) -> (r: Json)
    ensures
        r@ == groups_answer(groups@),
        r@ == JsonView::object().with(
            "groups"@,
            JsonView::Array(groups@.map_values(|g: GroupMeta| group_entry(g))),
        ),
{
    let mut items: Vec<Json> = Vec::new();
    let mut i: usize = 0;
    while i < groups.len()
        invariant
            i <= groups@.len(),
            items@.len() == i,
            forall|j: int| 0 <= j < i ==> (#[trigger] items@[j])@ == group_entry(groups@[j]),
        decreases groups@.len() - i,
    {
        items.push(group_line(&groups[i]));
        i = i + 1;
    }
    assert(views(items@) =~= groups@.map_values(|g: GroupMeta| group_entry(g)));
    Json::object().with("groups", Json::array(items))
}

// ---- what is told ----

/// Brokers are told of one by one, each by its id, its host and its port.
pub proof fn law_brokers_told(brokers: Seq<BrokerMeta>, i: int)
    ensures
        broker_entries(brokers) matches JsonView::Array(entries) && entries.len() == brokers.len()
            && (0 <= i < entries.len() ==> entries[i].get("id"@) == Some(
            JsonView::Int(brokers[i].id as int),
        ) && entries[i].get("host"@) == Some(JsonView::Str(brokers[i].host@)) && entries[i].get(
            "port"@,
        ) == Some(JsonView::Int(brokers[i].port as int))),
{
    broadcast use group_members;

    reveal_strlit("id");
    reveal_strlit("host");
    reveal_strlit("port");
    assert("id"@.len() == 2
        && "host"@.len() == 4
        && "port"@.len() == 4);
    assert("host"@[0] == 'h');
    assert("port"@[0] == 'p');
}

/// A cluster is told of by its brokers and by how many topics it has; the line about it
/// also has how many brokers there are, and which one answered. A ping is answered with
/// yes, and how many brokers there are.
pub proof fn law_cluster_told(cluster: ClusterMeta)
    ensures
        cluster_answer(cluster).get("brokers"@) == Some(broker_entries(cluster.brokers@)),
        cluster_answer(cluster).get("topic_count"@) == Some(
            JsonView::Int(cluster.topics@.len() as int),
        ),
        cluster_shown(cluster).get("brokers"@) == Some(broker_entries(cluster.brokers@)),
        cluster_shown(cluster).get("topic_count"@) == Some(
            JsonView::Int(cluster.topics@.len() as int),
        ),
        cluster_shown(cluster).get("broker_count"@) == Some(
            JsonView::Int(cluster.brokers@.len() as int),
        ),
        cluster_shown(cluster).get("controller_id"@) == Some(JsonView::Int(cluster.origin as int)),
        ping_answer(cluster).get("ok"@) == Some(JsonView::Bool(true)),
        ping_answer(cluster).get("broker_count"@) == Some(
            JsonView::Int(cluster.brokers@.len() as int),
        ),
{
    broadcast use group_members;

    reveal_strlit("brokers");
    reveal_strlit("topic_count");
    reveal_strlit("broker_count");
    reveal_strlit("controller_id");
    reveal_strlit("ok");
    assert("brokers"@.len() == 7
        && "topic_count"@.len() == 11
        && "broker_count"@.len() == 12
        && "controller_id"@.len() == 13
        && "ok"@.len() == 2);
}

/// Topics are told of by their names, in their order.
pub proof fn law_topics_told(topics: Seq<TopicMeta>, i: int)
    ensures
        topics_answer(topics).get("topics"@) matches Some(JsonView::Array(names)) && names.len()
            == topics.len() && (0 <= i < names.len() ==> names[i] == JsonView::Str(
            topics[i].name@,
        )),
{
    broadcast use group_members;

}

/// The line about a topic has its name, how many partitions it has, and its error, null
/// exactly where it has none.
pub proof fn law_topic_told(topic: TopicMeta)
    ensures
        topic_shown(topic).get("name"@) == Some(JsonView::Str(topic.name@)),
        topic_shown(topic).get("partitions"@) == Some(
            JsonView::Int(topic.partitions@.len() as int),
        ),
        topic_shown(topic).get("error"@) == Some(
            match topic.error {
                Some(text) => JsonView::Str(text@),
                None => JsonView::Null,
            },
        ),
{
    broadcast use group_members;

    reveal_strlit("name");
    reveal_strlit("partitions");
    reveal_strlit("error");
    assert("name"@.len() == 4
        && "partitions"@.len() == 10
        && "error"@.len() == 5);
}

/// A partition is told of by its id, its leader, its replicas and those in sync, in their
/// order; and, where that is asked for, by its error, null exactly where it has none.
pub proof fn law_partition_told(p: PartitionMeta, with_error: bool, i: int)
    ensures
        ({
            let entry = partition_entry(p, with_error);
            &&& entry.get("id"@) == Some(JsonView::Int(p.id as int))
            &&& entry.get("leader"@) == Some(JsonView::Int(p.leader as int))
            &&& match entry.get("replicas"@) {
                Some(JsonView::Array(list)) => list.len() == p.replicas@.len() && (0 <= i
                    < list.len() ==> list[i] == JsonView::Int(p.replicas@[i] as int)),
                _ => false,
            }
            &&& match entry.get("isr"@) {
                Some(JsonView::Array(list)) => list.len() == p.isr@.len() && (0 <= i < list.len()
                    ==> list[i] == JsonView::Int(p.isr@[i] as int)),
                _ => false,
            }
            &&& entry.get("error"@) == if !with_error {
                None
            } else {
                match p.error {
                    Some(text) => Some(JsonView::Str(text@)),
                    None => Some(JsonView::Null),
                }
            }
        }),
{
    broadcast use group_members;

    reveal_strlit("id");
    reveal_strlit("leader");
    reveal_strlit("replicas");
    reveal_strlit("isr");
    reveal_strlit("error");
    assert("id"@.len() == 2
        && "leader"@.len() == 6
        && "replicas"@.len() == 8
        && "isr"@.len() == 3
        && "error"@.len() == 5);
}

/// A topic is described exactly where one has the name: the first that has it, by how
/// many partitions it has and by each of them in order, with errors in the line alone.
/// Else it is not found, by its name.
pub proof fn law_topic_described(topics: Seq<TopicMeta>, name: Seq<char>, i: int, k: int)
    ensures
        0 <= i < topics.len() && topics[i].name@ == name && (forall|j: int|
            0 <= j < i ==> (#[trigger] topics[j]).name@ != name) ==> {
            let parts = topics[i].partitions@;
            &&& describe_answer(topics, name) matches Ok(answer) && answer.get("topic"@) == Some(
                JsonView::Str(name),
            ) && answer.get("partition_count"@) == Some(JsonView::Int(parts.len() as int))
                && match answer.get("partitions"@) {
                Some(JsonView::Array(list)) => list.len() == parts.len() && (0 <= k < list.len()
                    ==> list[k] == partition_entry(parts[k], false)),
                _ => false,
            }
            &&& describe_shown(topics, name) matches Ok(line) && line.get("name"@) == Some(
                JsonView::Str(name),
            ) && line.get("partition_count"@) == Some(JsonView::Int(parts.len() as int))
                && match line.get("partitions"@) {
                Some(JsonView::Array(list)) => list.len() == parts.len() && (0 <= k < list.len()
                    ==> list[k] == partition_entry(parts[k], true)),
                _ => false,
            }
        },
        (forall|j: int| 0 <= j < topics.len() ==> (#[trigger] topics[j]).name@ != name) ==> {
            &&& describe_answer(topics, name) == Err::<JsonView, Seq<char>>(
                "topic `"@ + name + "` not found"@,
            )
            &&& describe_shown(topics, name) == Err::<JsonView, Seq<char>>(
                "topic `"@ + name + "` not found"@,
            )
        },
{
    broadcast use group_members;

    reveal_strlit("topic");
    reveal_strlit("partition_count");
    reveal_strlit("partitions");
    reveal_strlit("name");
    assert("topic"@.len() == 5
        && "partition_count"@.len() == 15
        && "partitions"@.len() == 10
        && "name"@.len() == 4);
    law_topic_place(topics, name);
    if 0 <= i < topics.len() && topics[i].name@ == name && (forall|j: int|
        0 <= j < i ==> (#[trigger] topics[j]).name@ != name) {
        match topic_place(topics, name) {
            Some(p) => {
                if p < i {
                    assert(topics[p].name@ != name);
                } else if i < p {
                    assert(topics[i].name@ != name);
                }
            },
            None => {
                assert(topics[i].name@ != name);
            },
        }
    }
}

/// The ids of partitions are theirs, in their order.
pub proof fn law_partition_ids(partitions: Seq<PartitionMeta>, i: int)
    ensures
        ids(partitions).len() == partitions.len(),
        0 <= i < partitions.len() ==> ids(partitions)[i] == partitions[i].id,
{
}

/// Groups are told of one by one, each by its name, its state, its protocol and the type
/// of it, and how many members it has.
pub proof fn law_groups_told(groups: Seq<GroupMeta>, i: int)
    ensures
        groups_answer(groups).get("groups"@) matches Some(JsonView::Array(entries))
            && entries.len() == groups.len() && (0 <= i < entries.len() ==> {
            let g = groups[i];
            &&& entries[i] == group_entry(g)
            &&& entries[i].get("name"@) == Some(JsonView::Str(g.name@))
            &&& entries[i].get("state"@) == Some(JsonView::Str(g.state@))
            &&& entries[i].get("protocol"@) == Some(JsonView::Str(g.protocol@))
            &&& entries[i].get("protocol_type"@) == Some(JsonView::Str(g.protocol_type@))
            &&& entries[i].get("members"@) == Some(JsonView::Int(g.members as int))
        }),
{
    broadcast use group_members;

    reveal_strlit("name");
    reveal_strlit("state");
    reveal_strlit("protocol");
    reveal_strlit("protocol_type");
    reveal_strlit("members");
    assert("name"@.len() == 4
        && "state"@.len() == 5
        && "protocol"@.len() == 8
        && "protocol_type"@.len() == 13
        && "members"@.len() == 7);
}

/// The line that answers a ping says how many brokers there are, and how many topics: two
/// clusters are told apart by it where they differ in either.
pub proof fn law_ping_line(a: ClusterMeta, b: ClusterMeta)
    ensures
        ping_text(a) == "ok brokers="@ + decimal(a.brokers@.len()) + " topics="@ + decimal(
            a.topics@.len(),
        ),
        ping_text(a) == ping_text(b) ==> a.brokers@.len() == b.brokers@.len() && a.topics@.len()
            == b.topics@.len(),
{
    if ping_text(a) == ping_text(b) {
        reveal_strlit(" topics=");
        let (x, y) = (decimal(a.topics@.len()), decimal(b.topics@.len()));
        let head = "ok brokers="@;
        assert(ping_text(a) =~= head + decimal(a.brokers@.len()) + (" topics="@ + x));
        assert(ping_text(b) =~= head + decimal(b.brokers@.len()) + (" topics="@ + y));
        lemma_counts_told(
            head,
            a.brokers@.len(),
            b.brokers@.len(),
            " topics="@ + x,
            " topics="@ + y,
        );
        assert(x =~= (" topics="@ + x).skip(8));
        assert(y =~= (" topics="@ + y).skip(8));
        lemma_decimal_reads_back(a.topics@.len());
        lemma_decimal_reads_back(b.topics@.len());
    }
}

proof fn lemma_counts_told(head: Seq<char>, m: nat, n: nat, x: Seq<char>, y: Seq<char>)
    requires
        x.len() > 0,
        y.len() > 0,
        x[0] == ' ',
        y[0] == ' ',
        head + decimal(m) + x == head + decimal(n) + y,
    ensures
        m == n,
        x == y,
{
    let (a, b) = (decimal(m), decimal(n));
    let s = head + a + x;
    lemma_decimal_reads_back(m);
    lemma_decimal_reads_back(n);
    if a.len() < b.len() {
        assert(s[(head.len() + a.len()) as int] == ' ');
        assert((head + b + y)[(head.len() + a.len()) as int] == b[a.len() as int]);
        assert(decimal_digit(b[a.len() as int]));
    } else if b.len() < a.len() {
        assert((head + b + y)[(head.len() + b.len()) as int] == ' ');
        assert(s[(head.len() + b.len()) as int] == a[b.len() as int]);
        assert(decimal_digit(a[b.len() as int]));
    }
    assert(a =~= s.subrange(head.len() as int, (head.len() + a.len()) as int));
    assert(b =~= (head + b + y).subrange(head.len() as int, (head.len() + b.len()) as int));
    assert(x =~= s.skip((head.len() + a.len()) as int));
    assert(y =~= (head + b + y).skip((head.len() + b.len()) as int));
}

} // verus!
