//! Placement by key: which partition a record or a group belongs to.

use vstd::prelude::*;
use vstd::string::*;
use vstd::utf8::*;

use crate::error::{agrees, OpError};
use crate::hash::{
    crc32, crc32_ieee, java_hash, java_string_hashcode, law_java_hash_goes_on, law_murmur2_by_words,
    murmur2, murmur2_hash,
};
use crate::json::{group_members, Json, JsonView};

verus! {

/// The hash without its sign bit.
pub open spec fn to_positive(hash: int) -> int {
    hash % 0x8000_0000
}

/// The partition that the JVM client's default partitioner gives a key.
pub open spec fn jvm_partition(key: Seq<char>, partitions: u64) -> int {
    to_positive(murmur2_hash(encode_utf8(key))) % (partitions as int)
}

/// The partition that librdkafka's `consistent` partitioner gives a key.
pub open spec fn consistent_partition(key: Seq<char>, partitions: u64) -> int {
    crc32(encode_utf8(key)) as int % (partitions as int)
}

/// The partition of the offsets topic that holds a group.
pub open spec fn coordinator_partition(group: Seq<char>, partitions: u64) -> int {
    to_positive(java_hash(group)) % (partitions as int)
}

fn positive(hash: i32) -> (r: u64)
    ensures
        r == to_positive(hash as int),
{
    if hash < 0 {
        (hash as i64 + 0x8000_0000) as u64
    } else {
        hash as u64
    }
}

/// The key and the partition count that both partitioners ask for.
pub open spec fn key_request(opts: JsonView) -> Result<(Seq<char>, u64), Seq<char>> {
    match (opts.text("key"@), opts.unsigned("partitions"@)) {
        (None, _) => Err("missing key"@),
        (_, None) => Err("missing partitions"@),
        (Some(key), Some(partitions)) => if partitions == 0 {
            Err("partitions must be > 0"@)
        } else {
            Ok((key, partitions))
        },
    }
}

fn parse_key_request(opts: &Json) -> (r: Result<(String, u64), OpError>)
    ensures
        match (r, key_request(opts@)) {
            (Ok((key, partitions)), Ok(m)) => key@ == m.0 && partitions == m.1 && partitions > 0,
            (Err(e), Err(m)) => e@ == m,
            _ => false,
        },
{
    let key = match opts.text("key") {
        Some(key) => key,
        None => {
            return Err(OpError::new("missing key"));
        },
    };
    let partitions: u64 = match opts.unsigned("partitions") {
        Some(partitions) => partitions,
        None => {
            return Err(OpError::new("missing partitions"));
        },
    };
    if partitions == 0 {
        return Err(OpError::new("partitions must be > 0"));
    }
    Ok((key.to_owned(), partitions))
}

/// The answer of the JVM client's partitioner.
pub open spec fn partition_for_key_reply(opts: JsonView) -> Result<JsonView, Seq<char>> {
    match key_request(opts) {
        Err(message) => Err(message),
        Ok((key, partitions)) => Ok(
            JsonView::object().with(
                "partition"@,
                JsonView::Int(jvm_partition(key, partitions)),
            ).with("hash"@, JsonView::Int(murmur2_hash(encode_utf8(key)))),
        ),
    }
}

/// Predicts the partition that the JVM client's default partitioner sends a
/// keyed record to.
pub fn op_partition_for_key(opts: Json) -> (r: Result<Json, OpError>)
    ensures
        agrees(r, partition_for_key_reply(opts@)),
{
    match parse_key_request(&opts) {
        Err(e) => Err(e),
        Ok((key, partitions)) => {
            let hash: i32 = murmur2(key.as_str().as_bytes());
            let partition: u64 = positive(hash) % partitions;
            Ok(
                Json::object().with("partition", Json::Int(partition as i128)).with(
                    "hash",
                    Json::Int(hash as i128),
                ),
            )
        },
    }
}

/// The answer of librdkafka's `consistent` partitioner.
pub open spec fn partition_for_key_crc32_reply(opts: JsonView) -> Result<JsonView, Seq<char>> {
    match key_request(opts) {
        Err(message) => Err(message),
        Ok((key, partitions)) => Ok(
            JsonView::object().with(
                "partition"@,
                JsonView::Int(consistent_partition(key, partitions)),
            ).with("crc32"@, JsonView::Int(crc32(encode_utf8(key)) as int)),
        ),
    }
}

/// Predicts the partition that librdkafka's `consistent` partitioner sends a
/// keyed record to.
pub fn op_partition_for_key_crc32(opts: Json) -> (r: Result<Json, OpError>)
    ensures
        agrees(r, partition_for_key_crc32_reply(opts@)),
{
    match parse_key_request(&opts) {
        Err(e) => Err(e),
        Ok((key, partitions)) => {
            let crc: u32 = crc32_ieee(key.as_str().as_bytes());
            let partition: u64 = crc as u64 % partitions;
            Ok(
                Json::object().with("partition", Json::Int(partition as i128)).with(
                    "crc32",
                    Json::Int(crc as i128),
                ),
            )
        },
    }
}

/// The group asked for: the text of `group`, or of `group_id` where there is no
/// member `group`.
pub open spec fn asked_group(opts: JsonView) -> Option<Seq<char>> {
    if opts.get("group"@) is Some {
        opts.text("group"@)
    } else {
        opts.text("group_id"@)
    }
}

/// The partition count asked for, 50 unless given.
pub open spec fn asked_partitions(opts: JsonView) -> u64 {
    match opts.unsigned("partitions"@) {
        Some(partitions) => partitions,
        None => 50,
    }
}

/// The answer on which partition holds a group.
pub open spec fn group_coordinator_partition_reply(opts: JsonView) -> Result<
    JsonView,
    Seq<char>,
> {
    match asked_group(opts) {
        None => Err("missing group"@),
        Some(group) => {
            let partitions = asked_partitions(opts);
            if partitions == 0 {
                Err("partitions must be > 0"@)
            } else {
                Ok(
                    JsonView::object().with("group"@, JsonView::Str(group)).with(
                        "partition"@,
                        JsonView::Int(coordinator_partition(group, partitions)),
                    ).with("hash"@, JsonView::Int(java_hash(group))).with(
                        "partitions"@,
                        JsonView::Int(partitions as int),
                    ),
                )
            }
        },
    }
}

/// Which partition of the offsets topic holds a consumer group, and so which
/// broker coordinates it.
pub fn op_group_coordinator_partition(opts: Json) -> (r: Result<Json, OpError>)
    ensures
        agrees(r, group_coordinator_partition_reply(opts@)),
{
    let group = match opts.get("group") {
        Some(v) => v.as_str(),
        None => opts.text("group_id"),
    };
    let group = match group {
        Some(group) => group,
        None => {
            return Err(OpError::new("missing group"));
        },
    };
    let partitions: u64 = match opts.unsigned("partitions") {
        Some(partitions) => partitions,
        None => 50,
    };
    if partitions == 0 {
        return Err(OpError::new("partitions must be > 0"));
    }
    let hash: i32 = java_string_hashcode(group);
    let partition: u64 = positive(hash) % partitions;
    Ok(
        Json::object().with("group", Json::str(group)).with(
            "partition",
            Json::Int(partition as i128),
        ).with("hash", Json::Int(hash as i128)).with("partitions", Json::Int(partitions as i128)),
    )
}

/// Every placement lies within the partitions that there are.
pub proof fn law_partition_in_range(text: Seq<char>, partitions: u64)
    requires
        partitions > 0,
    ensures
        0 <= jvm_partition(text, partitions) < partitions,
        0 <= consistent_partition(text, partitions) < partitions,
        0 <= coordinator_partition(text, partitions) < partitions,
{
}

/// The JVM client's partitioner is refused exactly where the text of a key or a count of
/// partitions above zero is missing. Else it answers with the murmur2 hash of the key's
/// UTF-8 bytes, and with the remainder that the hash without its sign bit leaves when it
/// is divided by the count.
pub proof fn law_key_placed(opts: JsonView)
    ensures
        match (opts.get("key"@), opts.get("partitions"@)) {
            (Some(JsonView::Str(key)), Some(JsonView::Int(n))) => if 0 < n <= u64::MAX {
                let hash = murmur2_hash(encode_utf8(key));
                partition_for_key_reply(opts) matches Ok(reply) && reply.get("hash"@) == Some(
                    JsonView::Int(hash),
                ) && reply.get("partition"@) == Some(
                    JsonView::Int(
                        (if hash < 0 {
                            hash + 0x8000_0000
                        } else {
                            hash
                        }) % n,
                    ),
                )
            } else {
                partition_for_key_reply(opts) == Err::<JsonView, Seq<char>>(
                    if n == 0 {
                        "partitions must be > 0"@
                    } else {
                        "missing partitions"@
                    },
                )
            },
            (Some(JsonView::Str(_)), _) => partition_for_key_reply(opts) == Err::<
                JsonView,
                Seq<char>,
            >("missing partitions"@),
            _ => partition_for_key_reply(opts) == Err::<JsonView, Seq<char>>("missing key"@),
        },
{
    broadcast use group_members;

    reveal_strlit("partition");
    reveal_strlit("hash");
    assert("partition"@.len() == 9
        && "hash"@.len() == 4);
    if let (Some(JsonView::Str(key)), Some(JsonView::Int(n))) = (
        opts.get("key"@),
        opts.get("partitions"@),
    ) {
        law_murmur2_by_words(encode_utf8(key), 0);
    }
}

/// librdkafka's `consistent` partitioner is refused exactly where the text of a key or a
/// count of partitions above zero is missing. Else it answers with the CRC-32 checksum of
/// the key's UTF-8 bytes, and with the remainder that it leaves when it is divided by the
/// count.
pub proof fn law_key_placed_by_checksum(opts: JsonView)
    ensures
        match (opts.get("key"@), opts.get("partitions"@)) {
            (Some(JsonView::Str(key)), Some(JsonView::Int(n))) => if 0 < n <= u64::MAX {
                let crc = crc32(encode_utf8(key)) as int;
                partition_for_key_crc32_reply(opts) matches Ok(reply) && reply.get("crc32"@)
                    == Some(JsonView::Int(crc)) && reply.get("partition"@) == Some(
                    JsonView::Int(crc % n),
                )
            } else {
                partition_for_key_crc32_reply(opts) == Err::<JsonView, Seq<char>>(
                    if n == 0 {
                        "partitions must be > 0"@
                    } else {
                        "missing partitions"@
                    },
                )
            },
            (Some(JsonView::Str(_)), _) => partition_for_key_crc32_reply(opts) == Err::<
                JsonView,
                Seq<char>,
            >("missing partitions"@),
            _ => partition_for_key_crc32_reply(opts) == Err::<JsonView, Seq<char>>("missing key"@),
        },
{
    broadcast use group_members;

    reveal_strlit("partition");
    reveal_strlit("crc32");
    assert("partition"@.len() == 9
        && "crc32"@.len() == 5);
}

/// Which partition holds a group is asked by the text of `group`, or of `group_id` where
/// there is no `group`, for the count given, or fifty. It is answered with the group, the
/// count, the Java hash of the group, and the remainder that the hash without its sign
/// bit leaves when it is divided by the count.
pub proof fn law_group_placed(opts: JsonView, group: Seq<char>, n: int)
    requires
        match (opts.get("group"@), opts.get("group_id"@)) {
            (Some(JsonView::Str(g)), _) => group == g,
            (None, Some(JsonView::Str(g))) => group == g,
            _ => false,
        },
        match opts.get("partitions"@) {
            Some(JsonView::Int(k)) if 0 <= k <= u64::MAX => n == k,
            _ => n == 50,
        },
    ensures
        n == 0 ==> group_coordinator_partition_reply(opts) == Err::<JsonView, Seq<char>>(
            "partitions must be > 0"@,
        ),
        n > 0 ==> {
            let hash = java_hash(group);
            group_coordinator_partition_reply(opts) matches Ok(reply) && reply.get("group"@)
                == Some(JsonView::Str(group)) && reply.get("hash"@) == Some(JsonView::Int(hash))
                && reply.get("partitions"@) == Some(JsonView::Int(n)) && reply.get("partition"@)
                == Some(
                JsonView::Int(
                    (if hash < 0 {
                        hash + 0x8000_0000
                    } else {
                        hash
                    }) % n,
                ),
            )
        },
{
    broadcast use group_members;

    reveal_strlit("group");
    reveal_strlit("partition");
    reveal_strlit("hash");
    reveal_strlit("partitions");
    assert("group"@.len() == 5
        && "partition"@.len() == 9
        && "hash"@.len() == 4
        && "partitions"@.len() == 10);
    law_java_hash_goes_on(group, 'a', 0, 0);
}

/// Without the text of a group, none is placed.
pub proof fn law_group_refused(opts: JsonView)
    requires
        match (opts.get("group"@), opts.get("group_id"@)) {
            (Some(v), _) => !(v is Str),
            (None, Some(v)) => !(v is Str),
            (None, None) => true,
        },
    ensures
        group_coordinator_partition_reply(opts) == Err::<JsonView, Seq<char>>("missing group"@),
{
}

} // verus!
