//! Lists of partitions, as the client library takes them in requests.

use rdkafka::error::KafkaError;
use rdkafka::{Offset, TopicPartitionList};
use vstd::prelude::*;
use vstd::string::*;

use crate::error::OpError;
use crate::text::chars_of;

verus! {

/// A list of partitions of the `rdkafka` crate.
#[verifier::external_type_specification]
#[verifier::external_body]
pub struct ExTopicPartitionList(TopicPartitionList);

/// An error of the `rdkafka` crate.
#[verifier::external_type_specification]
#[verifier::external_body]
pub struct ExKafkaError(KafkaError);

/// What an error says.
pub uninterp spec fn kafka_error_text(e: KafkaError) -> Seq<char>;

/// `KafkaError::to_string`, by its `Display`: what the error says, which the name
/// stands for.
#[verifier::external_body]
fn error_text(e: &KafkaError) -> (r: String)
    ensures
        r@ == kafka_error_text(*e),
{
    e.to_string()
}

/// The entries of a list of partitions: the topic, the partition, and the offset
/// where it is a number, not a special one nor unset.
pub uninterp spec fn listed(list: TopicPartitionList) -> Seq<(Seq<char>, i32, Option<i64>)>;

/// How many entries a list may hold: the client library counts them in 32 bits,
/// and doubles the room for them when it runs out.
pub const MAX_PARTITIONS: usize = 0x4000_0000;

/// `TopicPartitionList::new`: a list without entries.
pub assume_specification[ TopicPartitionList::new ]() -> (r: TopicPartitionList)
    ensures
        listed(r).len() == 0,
;

/// `TopicPartitionList::count`: how many entries a list has.
pub assume_specification[ TopicPartitionList::count ](list: &TopicPartitionList) -> (r: usize)
    ensures
        r == listed(*list).len(),
;

/// `TopicPartitionList::add_partition`: adds an entry without an offset behind the
/// others. It fails on a topic with a null character in its name.
#[verifier::external_body]
fn add_partition(list: &mut TopicPartitionList, topic: &str, partition: i32)
    requires
        !topic@.contains('\0'),
        listed(*old(list)).len() < MAX_PARTITIONS,
    ensures
        listed(*final(list)) == listed(*old(list)).push((topic@, partition, None)),
{
    list.add_partition(topic, partition);
}

/// The entries with an offset set: the one of the first entry for the partition.
pub open spec fn with_offset(
    entries: Seq<(Seq<char>, i32, Option<i64>)>,
    topic: Seq<char>,
    partition: i32,
    offset: i64,
) -> Seq<(Seq<char>, i32, Option<i64>)>
    decreases entries.len(),
{
    if entries.len() == 0 {
        entries
    } else if entries[0].0 == topic && entries[0].1 == partition {
        seq![(topic, partition, Some(offset))] + entries.skip(1)
    } else {
        seq![entries[0]] + with_offset(entries.skip(1), topic, partition, offset)
    }
}

/// What the client library says of a negative offset.
pub open spec fn refused_offset() -> Seq<char> {
    "Set partition offset error: InvalidArgument (Local: Invalid argument or configuration)"@
}

/// `TopicPartitionList::add_partition_offset` with a plain offset: adds an entry
/// behind the others, and sets the offset of the first entry for that partition,
/// unless the offset is negative, which is an error that says that the argument is
/// invalid. It fails on a topic with a null character in its name.
#[verifier::external_body]
fn add_partition_offset(
    list: &mut TopicPartitionList,
    topic: &str,
    partition: i32,
    offset: i64,
) -> (r: Result<(), KafkaError>)
    requires
        !topic@.contains('\0'),
        listed(*old(list)).len() < MAX_PARTITIONS,
    ensures
        match r {
            Ok(_) => offset >= 0,
            Err(e) => offset < 0 && kafka_error_text(e) == refused_offset(),
        },
        offset >= 0 ==> listed(*final(list)) == with_offset(
            listed(*old(list)).push((topic@, partition, None)),
            topic@,
            partition,
            offset,
        ),
        offset < 0 ==> listed(*final(list)) == listed(*old(list)).push((topic@, partition, None)),
{
    list.add_partition_offset(topic, partition, Offset::Offset(offset))
}

/// The models of entries.
pub open spec fn entry_views(entries: Seq<(String, i32, Option<i64>)>) -> Seq<
    (Seq<char>, i32, Option<i64>),
> {
    entries.map_values(|e: (String, i32, Option<i64>)| (e.0@, e.1, e.2))
}

/// `TopicPartitionList::elements`, with `topic`, `partition` and `offset` of each: the
/// entries in order, an offset only where it is `Offset::Offset`. Topics are read as
/// UTF-8, which they are in every list made from strings.
#[verifier::external_body]
fn elements(list: &TopicPartitionList) -> (r: Vec<(String, i32, Option<i64>)>)
    ensures
        entry_views(r@) == listed(*list),
{
    list.elements()
        .iter()
        .map(|e| {
            let offset = match e.offset() {
                Offset::Offset(n) => Some(n),
                _ => None,
            };
            (e.topic().to_string(), e.partition(), offset)
        })
        .collect()
}

/// Reads the entries of a list.
pub fn read_list(list: &TopicPartitionList) -> (r: Vec<(String, i32, Option<i64>)>)
    ensures
        entry_views(r@) == listed(*list),
{
    elements(list)
}

// ---- requests about one topic ----

/// The partitions of one topic, without offsets.
pub open spec fn plain_entries(topic: Seq<char>, parts: Seq<i32>) -> Seq<
    (Seq<char>, i32, Option<i64>),
> {
    parts.map_values(|p: i32| (topic, p, None::<i64>))
}

/// Lists partitions of one topic, without offsets.
pub fn list_partitions(topic: &str, parts: &Vec<i32>) -> (r: TopicPartitionList)
    requires
        !topic@.contains('\0'),
        parts@.len() <= MAX_PARTITIONS,
    ensures
        listed(r) == plain_entries(topic@, parts@),
{
    let mut list = TopicPartitionList::new();
    let mut i: usize = 0;
    let ghost all = plain_entries(topic@, parts@);
    assert(listed(list) =~= all.take(0));
    while i < parts.len()
        invariant
            !topic@.contains('\0'),
            i <= parts@.len() <= MAX_PARTITIONS,
            all == plain_entries(topic@, parts@),
            listed(list) == all.take(i as int),
        decreases parts@.len() - i,
    {
        add_partition(&mut list, topic, parts[i]);
        assert(all.take(i + 1) =~= all.take(i as int).push(all[i as int]));
        i = i + 1;
    }
    assert(all.take(i as int) =~= all);
    list
}

/// The partitions of one topic, added one after the other with the same offset.
pub open spec fn seeded_entries(topic: Seq<char>, parts: Seq<i32>, offset: i64) -> Seq<
    (Seq<char>, i32, Option<i64>),
>
    decreases parts.len(),
{
    if parts.len() == 0 {
        Seq::empty()
    } else {
        with_offset(
            seeded_entries(topic, parts.drop_last(), offset).push((topic, parts.last(), None)),
            topic,
            parts.last(),
            offset,
        )
    }
}

proof fn lemma_with_offset_len(
    entries: Seq<(Seq<char>, i32, Option<i64>)>,
    topic: Seq<char>,
    partition: i32,
    offset: i64,
)
    ensures
        with_offset(entries, topic, partition, offset).len() == entries.len(),
    decreases entries.len(),
{
    if entries.len() > 0 {
        lemma_with_offset_len(entries.skip(1), topic, partition, offset);
    }
}

/// Lists partitions of one topic with the same offset for each, which may not be
/// negative where there is a partition.
pub fn seed_partitions(topic: &str, parts: &Vec<i32>, offset: i64) -> (r: Result<
    TopicPartitionList,
    OpError,
>)
    requires
        !topic@.contains('\0'),
        parts@.len() <= MAX_PARTITIONS,
    ensures
        match r {
            Ok(list) => (offset >= 0 || parts@.len() == 0) && listed(list) == seeded_entries(
                topic@,
                parts@,
                offset,
            ),
            Err(e) => offset < 0 && parts@.len() > 0 && e@
                == "seeding offsets_for_times request"@,
        },
{
    let mut list = TopicPartitionList::new();
    let mut i: usize = 0;
    assert(parts@.take(0) =~= Seq::empty());
    assert(listed(list) =~= seeded_entries(topic@, parts@.take(0), offset));
    while i < parts.len()
        invariant
            !topic@.contains('\0'),
            i <= parts@.len() <= MAX_PARTITIONS,
            i > 0 ==> offset >= 0,
            listed(list).len() == i,
            listed(list) == seeded_entries(topic@, parts@.take(i as int), offset),
        decreases parts@.len() - i,
    {
        proof {
            assert(parts@.take(i + 1).drop_last() =~= parts@.take(i as int));
            lemma_with_offset_len(
                listed(list).push((topic@, parts@[i as int], None)),
                topic@,
                parts@[i as int],
                offset,
            );
        }
        match add_partition_offset(&mut list, topic, parts[i], offset) {
            Ok(_) => {},
            Err(_) => {
                return Err(OpError::new("seeding offsets_for_times request"));
            },
        }
        i = i + 1;
    }
    assert(parts@.take(i as int) =~= parts@);
    Ok(list)
}

/// An entry that is set has no other before it for the same partition.
proof fn lemma_with_offset_at(
    entries: Seq<(Seq<char>, i32, Option<i64>)>,
    topic: Seq<char>,
    partition: i32,
    offset: i64,
    at: int,
)
    requires
        0 <= at < entries.len(),
        entries[at].0 == topic,
        entries[at].1 == partition,
        forall|j: int| 0 <= j < at ==> (#[trigger] entries[j]).1 != partition,
    ensures
        with_offset(entries, topic, partition, offset) == entries.update(
            at,
            (topic, partition, Some(offset)),
        ),
    decreases at,
{
    if at > 0 {
        let rest = entries.skip(1);
        assert forall|j: int| 0 <= j < at - 1 implies (#[trigger] rest[j]).1 != partition by {
            assert(rest[j] == entries[j + 1]);
        }
        assert(entries[0].1 != partition);
        lemma_with_offset_at(rest, topic, partition, offset, at - 1);
        assert(seq![entries[0]] + rest.update(at - 1, (topic, partition, Some(offset)))
            =~= entries.update(at, (topic, partition, Some(offset))));
    } else {
        assert(seq![(topic, partition, Some(offset))] + entries.skip(1) =~= entries.update(
            0,
            (topic, partition, Some(offset)),
        ));
    }
}

/// Where no partition occurs twice, each one is listed with the offset.
pub proof fn law_seeded_entries(topic: Seq<char>, parts: Seq<i32>, offset: i64)
    requires
        parts.no_duplicates(),
    ensures
        seeded_entries(topic, parts, offset) == parts.map_values(
            |p: i32| (topic, p, Some(offset)),
        ),
    decreases parts.len(),
{
    let all = parts.map_values(|p: i32| (topic, p, Some(offset)));
    if parts.len() > 0 {
        let init = parts.drop_last();
        let last = parts.last();
        law_seeded_entries(topic, init, offset);
        let before = seeded_entries(topic, init, offset);
        let added = before.push((topic, last, None));
        let at = init.len() as int;
        assert forall|j: int| 0 <= j < at implies (#[trigger] added[j]).1 != last by {
            assert(added[j] == before[j]);
            assert(parts[j] != parts[at]);
        }
        lemma_with_offset_at(added, topic, last, offset, at);
        assert(added.update(at, (topic, last, Some(offset))) =~= all);
    } else {
        assert(seeded_entries(topic, parts, offset) =~= all);
    }
}

// ---- requests about many topics ----

/// The partitions of several topics, without offsets, topic after topic.
pub open spec fn topics_entries(topics: Seq<(Seq<char>, Seq<i32>)>) -> Seq<
    (Seq<char>, i32, Option<i64>),
>
    decreases topics.len(),
{
    if topics.len() == 0 {
        Seq::empty()
    } else {
        topics_entries(topics.drop_last()) + plain_entries(topics.last().0, topics.last().1)
    }
}

/// The models of topics with their partitions.
pub open spec fn topic_views(topics: Seq<(String, Vec<i32>)>) -> Seq<(Seq<char>, Seq<i32>)> {
    topics.map_values(|t: (String, Vec<i32>)| (t.0@, t.1@))
}

/// The topics can be listed: no name holds a null character, and there are no more
/// partitions in all than a list may hold.
pub open spec fn listable(topics: Seq<(Seq<char>, Seq<i32>)>) -> bool {
    &&& forall|i: int| 0 <= i < topics.len() ==> !(#[trigger] topics[i]).0.contains('\0')
    &&& topics_entries(topics).len() <= MAX_PARTITIONS
}

proof fn lemma_entries_grow(topics: Seq<(Seq<char>, Seq<i32>)>, n: int)
    requires
        0 <= n <= topics.len(),
    ensures
        topics_entries(topics.take(n)).len() <= topics_entries(topics).len(),
    decreases topics.len(),
{
    if n == topics.len() {
        assert(topics.take(n) =~= topics);
    } else {
        assert(topics.drop_last().take(n) =~= topics.take(n));
        lemma_entries_grow(topics.drop_last(), n);
    }
}

/// Lists all the partitions of several topics, without offsets, if there are any.
pub fn list_topics(topics: &Vec<(String, Vec<i32>)>) -> (r: Option<TopicPartitionList>)
    requires
        listable(topic_views(topics@)),
    ensures
        match r {
            Some(list) => listed(list) == topics_entries(topic_views(topics@)) && listed(list).len()
                > 0,
            None => topics_entries(topic_views(topics@)).len() == 0,
        },
{
    let mut list = TopicPartitionList::new();
    let ghost all = topic_views(topics@);
    let mut i: usize = 0;
    assert(all.take(0) =~= Seq::empty());
    assert(listed(list) =~= topics_entries(all.take(0)));
    while i < topics.len()
        invariant
            i <= topics@.len(),
            all == topic_views(topics@),
            listable(all),
            listed(list) == topics_entries(all.take(i as int)),
        decreases topics@.len() - i,
    {
        let name = topics[i].0.as_str();
        let parts = &topics[i].1;
        let ghost before = listed(list);
        let ghost added = plain_entries(name@, parts@);
        proof {
            assert(all[i as int] == (name@, parts@));
            assert(all.take(i + 1).drop_last() =~= all.take(i as int));
            lemma_entries_grow(all, i + 1);
            assert(before + added.take(0) =~= before);
        }
        let mut k: usize = 0;
        while k < parts.len()
            invariant
                k <= parts@.len(),
                !name@.contains('\0'),
                added == plain_entries(name@, parts@),
                before.len() + added.len() <= MAX_PARTITIONS,
                listed(list) == before + added.take(k as int),
            decreases parts@.len() - k,
        {
            add_partition(&mut list, name, parts[k]);
            assert(before + added.take(k + 1) =~= (before + added.take(k as int)).push(
                added[k as int],
            ));
            k = k + 1;
        }
        assert(added.take(k as int) =~= added);
        i = i + 1;
    }
    assert(all.take(i as int) =~= all);
    if list.count() == 0 {
        None
    } else {
        Some(list)
    }
}

/// Whether topics can be listed.
pub fn are_listable(topics: &Vec<(String, Vec<i32>)>) -> (r: bool)
    ensures
        r == listable(topic_views(topics@)),
{
    let ghost all = topic_views(topics@);
    let mut count: usize = 0;
    let mut i: usize = 0;
    assert(all.take(0) =~= Seq::empty());
    while i < topics.len()
        invariant
            i <= topics@.len(),
            all == topic_views(topics@),
            forall|j: int| 0 <= j < i ==> !(#[trigger] all[j]).0.contains('\0'),
            count == topics_entries(all.take(i as int)).len(),
            count <= MAX_PARTITIONS,
        decreases topics@.len() - i,
    {
        proof {
            assert(all[i as int] == (topics@[i as int].0@, topics@[i as int].1@));
            assert(all.take(i + 1).drop_last() =~= all.take(i as int));
            lemma_entries_grow(all, i + 1);
        }
        if holds_null(topics[i].0.as_str()) {
            return false;
        }
        if topics[i].1.len() > MAX_PARTITIONS - count {
            return false;
        }
        count = count + topics[i].1.len();
        i = i + 1;
    }
    assert(all.take(i as int) =~= all);
    true
}

/// Whether a text holds a null character.
pub fn holds_null(s: &str) -> (r: bool)
    ensures
        r == s@.contains('\0'),
{
    let chars = chars_of(s);
    let mut i: usize = 0;
    while i < chars.len()
        invariant
            i <= chars@.len(),
            chars@ == s@,
            forall|j: int| 0 <= j < i ==> chars@[j] != '\0',
        decreases chars@.len() - i,
    {
        if chars[i] == '\0' {
            assert(s@[i as int] == '\0');
            return true;
        }
        i = i + 1;
    }
    false
}

/// The offset with which a message is committed, the one behind it, as the only
/// entry of a list. An offset below -1 is refused.
pub fn commit_list(topic: &str, partition: i32, offset: i64) -> (r: Result<
    TopicPartitionList,
    OpError,
>)
    requires
        !topic@.contains('\0'),
        offset < i64::MAX,
    ensures
        match r {
            Ok(list) => offset >= -1 && listed(list) == seq![
                (topic@, partition, Some((offset + 1) as i64)),
            ],
            Err(e) => offset < -1 && e@ == refused_offset(),
        },
{
    let mut list = TopicPartitionList::new();
    proof {
        let entry = (topic@, partition, None::<i64>);
        assert(listed(list).push(entry) =~= seq![entry]);
        lemma_with_offset_at(seq![entry], topic@, partition, (offset + 1) as i64, 0);
    }
    match add_partition_offset(&mut list, topic, partition, offset + 1) {
        Ok(_) => {
            assert(listed(list) =~= seq![(topic@, partition, Some((offset + 1) as i64))]);
            Ok(list)
        },
        Err(e) => Err(OpError { message: error_text(&e) }),
    }
}

/// Partitions of one topic are listed one by one, without offsets, in their order.
pub proof fn law_plain_entries(topic: Seq<char>, parts: Seq<i32>, i: int)
    ensures
        plain_entries(topic, parts).len() == parts.len(),
        0 <= i < parts.len() ==> plain_entries(topic, parts)[i] == (topic, parts[i], None::<i64>),
{
}

/// Topics are listed one behind the other, each with all of its partitions in their order.
pub proof fn law_topics_entries(
    topics: Seq<(Seq<char>, Seq<i32>)>,
    topic: Seq<char>,
    parts: Seq<i32>,
    part: i32,
)
    ensures
        topics_entries(Seq::empty()).len() == 0,
        topics_entries(topics.push((topic, Seq::empty()))) == topics_entries(topics),
        topics_entries(topics.push((topic, parts.push(part)))) == topics_entries(
            topics.push((topic, parts)),
        ).push((topic, part, None)),
{
    assert(topics.push((topic, parts)).drop_last() =~= topics);
    assert(topics.push((topic, parts.push(part))).drop_last() =~= topics);
    assert(topics.push((topic, Seq::empty())).drop_last() =~= topics);
    assert(plain_entries(topic, parts.push(part)) =~= plain_entries(topic, parts).push(
        (topic, part, None),
    ));
    assert(plain_entries(topic, Seq::empty()) =~= Seq::empty());
    assert(topics_entries(topics) + Seq::<(Seq<char>, i32, Option<i64>)>::empty()
        =~= topics_entries(topics));
    assert(topics_entries(topics) + plain_entries(topic, parts).push((topic, part, None)) =~= (
    topics_entries(topics) + plain_entries(topic, parts)).push((topic, part, None)));
}

/// The models of topics and of entries are theirs, in their order.
pub proof fn law_partition_models(
    topics: Seq<(String, Vec<i32>)>,
    entries: Seq<(String, i32, Option<i64>)>,
    i: int,
)
    ensures
        topic_views(topics).len() == topics.len(),
        0 <= i < topics.len() ==> topic_views(topics)[i] == (topics[i].0@, topics[i].1@),
        entry_views(entries).len() == entries.len(),
        0 <= i < entries.len() ==> entry_views(entries)[i] == (
            entries[i].0@,
            entries[i].1,
            entries[i].2,
        ),
{
}

/// Setting an offset sets that of the first entry for the partition, and changes nothing
/// else.
pub proof fn law_offset_set(
    entries: Seq<(Seq<char>, i32, Option<i64>)>,
    topic: Seq<char>,
    partition: i32,
    offset: i64,
    i: int,
)
    ensures
        with_offset(entries, topic, partition, offset).len() == entries.len(),
        0 <= i < entries.len() ==> with_offset(entries, topic, partition, offset)[i] == (
        if entries[i].0 == topic && entries[i].1 == partition && (forall|j: int|
            0 <= j < i ==> !((#[trigger] entries[j]).0 == topic && entries[j].1 == partition)) {
            (topic, partition, Some(offset))
        } else {
            entries[i]
        }),
    decreases entries.len(),
{
    lemma_with_offset_len(entries, topic, partition, offset);
    if entries.len() > 0 && i > 0 {
        let rest = entries.skip(1);
        law_offset_set(rest, topic, partition, offset, i - 1);
        assert forall|j: int| 0 <= j < rest.len() implies #[trigger] rest[j] == entries[j + 1] by {}
        let first = entries[0].0 == topic && entries[0].1 == partition;
        if first && 0 <= i < entries.len() {
            assert(!(forall|j: int|
                0 <= j < i ==> !((#[trigger] entries[j]).0 == topic && entries[j].1 == partition)))
                by {
                assert(entries[0].0 == topic);
            }
        } else if 0 <= i < entries.len() {
            let here = forall|j: int|
                0 <= j < i ==> !((#[trigger] entries[j]).0 == topic && entries[j].1 == partition);
            let there = forall|j: int|
                0 <= j < i - 1 ==> !((#[trigger] rest[j]).0 == topic && rest[j].1 == partition);
            if here {
                assert forall|j: int| 0 <= j < i - 1 implies !((#[trigger] rest[j]).0 == topic
                    && rest[j].1 == partition) by {
                    assert(entries[j + 1] == rest[j]);
                }
            }
            if there {
                assert forall|j: int| 0 <= j < i implies !((#[trigger] entries[j]).0 == topic
                    && entries[j].1 == partition) by {
                    if j > 0 {
                        assert(rest[j - 1] == entries[j]);
                    }
                }
            }
        }
    }
}

/// A list may hold 2^30 entries. Topics can be listed exactly where they have no more
/// partitions than that in all, and no name holds a null character.
pub proof fn law_listable(topics: Seq<(Seq<char>, Seq<i32>)>)
    ensures
        MAX_PARTITIONS == 0x4000_0000,
        listable(topics) <==> topics_entries(topics).len() <= 0x4000_0000 && forall|i: int, j: int|
            #![trigger topics[i].0[j]]
            0 <= i < topics.len() && 0 <= j < topics[i].0.len() ==> topics[i].0[j] != '\0',
{
    if listable(topics) {
        assert forall|i: int, j: int|
            #![trigger topics[i].0[j]]
            0 <= i < topics.len() && 0 <= j < topics[i].0.len() implies topics[i].0[j] != '\0' by {
            assert(!topics[i].0.contains('\0'));
            assert(topics[i].0.contains(topics[i].0[j]));
        }
    }
    if forall|i: int, j: int|
        #![trigger topics[i].0[j]]
        0 <= i < topics.len() && 0 <= j < topics[i].0.len() ==> topics[i].0[j] != '\0' {
        assert forall|i: int| 0 <= i < topics.len() implies !(#[trigger] topics[i]).0.contains(
            '\0',
        ) by {
            if topics[i].0.contains('\0') {
                let j = choose|j: int| 0 <= j < topics[i].0.len() && topics[i].0[j] == '\0';
                assert(topics[i].0[j] != '\0');
            }
        }
    }
}

/// Partitions are listed with an offset one by one: each is put behind the others, and the
/// first entry for it is set.
pub proof fn law_seeded_one_by_one(topic: Seq<char>, parts: Seq<i32>, part: i32, offset: i64)
    ensures
        seeded_entries(topic, Seq::empty(), offset).len() == 0,
        seeded_entries(topic, parts.push(part), offset) == with_offset(
            seeded_entries(topic, parts, offset).push((topic, part, None)),
            topic,
            part,
            offset,
        ),
{
    assert(parts.push(part).drop_last() =~= parts);
}

} // verus!
