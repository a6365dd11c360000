//! Offsets of a topic: how many messages its partitions hold, and how far a group is
//! behind.

use rdkafka::TopicPartitionList;
use vstd::prelude::*;
use vstd::string::*;

use crate::error::OpError;
use crate::json::{group_members, views, Json, JsonView};
use crate::number::{signed32, truncate};
use crate::partitions::{entry_views, listed, read_list};

verus! {

/// A number of 64 bits.
pub open spec fn fits(n: int) -> bool {
    i64::MIN <= n <= i64::MAX
}

// ---- watermarks ----

/// The first and the last offset of a partition.
#[derive(Debug, PartialEq, Eq, Clone, Copy)]
pub struct Watermark {
    pub partition: i32,
    pub low: i64,
    pub high: i64,
}

/// Which topic's watermarks are asked for, and of which partition, where it is one
/// alone: the lower 32 bits of the number.
pub open spec fn watermarks_request(opts: JsonView) -> Result<(Seq<char>, Option<int>), Seq<char>> {
    match opts.text("topic"@) {
        None => Err("missing topic"@),
        Some(topic) => Ok(
            (
                topic,
                match opts.signed("partition"@) {
                    Some(p) => Some(signed32(p as int)),
                    None => None,
                },
            ),
        ),
    }
}

/// Reads which watermarks are asked for.
pub fn parse_watermarks_request(opts: &Json) -> (r: Result<(String, Option<i32>), OpError>)
    ensures
        match (r, watermarks_request(opts@)) {
            (Ok((topic, None)), Ok((t, None))) => topic@ == t,
            (Ok((topic, Some(p))), Ok((t, Some(n)))) => topic@ == t && p == n,
            (Err(e), Err(message)) => e@ == message,
            _ => false,
        },
{
    match opts.text("topic") {
        None => Err(OpError::new("missing topic")),
        Some(topic) => match opts.signed("partition") {
            Some(p) => Ok((topic.to_owned(), Some(truncate(p)))),
            None => Ok((topic.to_owned(), None)),
        },
    }
}

/// How many messages lie between the watermarks of partitions.
pub open spec fn message_count(marks: Seq<Watermark>) -> int
    decreases marks.len(),
{
    if marks.len() == 0 {
        0
    } else {
        message_count(marks.drop_last()) + (marks.last().high - marks.last().low)
    }
}

/// The counts, one by one and added up, are numbers of 64 bits.
pub open spec fn counts_fit(marks: Seq<Watermark>) -> bool
    decreases marks.len(),
{
    marks.len() > 0 ==> {
        &&& counts_fit(marks.drop_last())
        &&& fits(marks.last().high - marks.last().low)
        &&& fits(message_count(marks))
    }
}

proof fn lemma_counts_fit(marks: Seq<Watermark>, n: int)
    requires
        0 <= n <= marks.len(),
        counts_fit(marks),
    ensures
        counts_fit(marks.take(n)),
    decreases marks.len(),
{
    if n == marks.len() {
        assert(marks.take(n) =~= marks);
    } else {
        assert(marks.drop_last().take(n) =~= marks.take(n));
        lemma_counts_fit(marks.drop_last(), n);
    }
}

/// Whether the counts, one by one and added up, are numbers of 64 bits.
pub fn check_counts_fit(marks: &Vec<Watermark>) -> (r: bool)
    ensures
        r == counts_fit(marks@),
{
    let mut total: i64 = 0;
    let mut i: usize = 0;
    assert(marks@.take(0) =~= Seq::empty());
    while i < marks.len()
        invariant
            i <= marks@.len(),
            counts_fit(marks@.take(i as int)),
            total == message_count(marks@.take(i as int)),
        decreases marks@.len() - i,
    {
        let count: i128 = marks[i].high as i128 - marks[i].low as i128;
        let sum: i128 = total as i128 + count;
        proof {
            assert(marks@.take(i + 1).drop_last() =~= marks@.take(i as int));
        }
        if !(i64::MIN as i128 <= count && count <= i64::MAX as i128 && i64::MIN as i128 <= sum
            && sum <= i64::MAX as i128) {
            proof {
                if counts_fit(marks@) {
                    lemma_counts_fit(marks@, i + 1);
                }
            }
            return false;
        }
        total = sum as i64;
        i = i + 1;
    }
    assert(marks@.take(i as int) =~= marks@);
    true
}

/// The watermarks of a partition as an object.
pub open spec fn watermark_entry(mark: Watermark) -> JsonView {
    JsonView::object().with("partition"@, JsonView::Int(mark.partition as int)).with(
        "low"@,
        JsonView::Int(mark.low as int),
    ).with("high"@, JsonView::Int(mark.high as int)).with(
        "count"@,
        JsonView::Int(mark.high - mark.low),
    )
}

/// The answer about watermarks.
pub open spec fn watermarks_answer(topic: Seq<char>, marks: Seq<Watermark>) -> JsonView {
    JsonView::object().with("topic"@, JsonView::Str(topic)).with(
        "partitions"@,
        JsonView::Array(marks.map_values(|m: Watermark| watermark_entry(m))),
    ).with("total"@, JsonView::Int(message_count(marks)))
}

/// The answer about watermarks: those of each partition, and how many messages lie
/// between them in all.
pub fn watermarks_reply(topic: &str, marks: &Vec<Watermark>) -> (r: Json)
    requires
        counts_fit(marks@),
    ensures
        r@ == watermarks_answer(topic@, marks@),
        r@ == JsonView::object().with("topic"@, JsonView::Str(topic@)).with(
            "partitions"@,
            JsonView::Array(marks@.map_values(|m: Watermark| watermark_entry(m))),
        ).with("total"@, JsonView::Int(message_count(marks@))),
{
    let mut rows: Vec<Json> = Vec::new();
    let mut total: i64 = 0;
    let mut i: usize = 0;
    assert(marks@.take(0) =~= Seq::empty());
    while i < marks.len()
        invariant
            i <= marks@.len(),
            counts_fit(marks@),
            rows@.len() == i,
            forall|j: int| 0 <= j < i ==> (#[trigger] rows@[j])@ == watermark_entry(marks@[j]),
            total == message_count(marks@.take(i as int)),
        decreases marks@.len() - i,
    {
        let mark = marks[i];
        proof {
            assert(marks@.take(i + 1).drop_last() =~= marks@.take(i as int));
            lemma_counts_fit(marks@, i + 1);
        }
        let count: i64 = mark.high - mark.low;
        total = total + count;
        rows.push(
            Json::object().with("partition", Json::Int(mark.partition as i128)).with(
                "low",
                Json::Int(mark.low as i128),
            ).with("high", Json::Int(mark.high as i128)).with("count", Json::Int(count as i128)),
        );
        i = i + 1;
    }
    proof {
        assert(marks@.take(i as int) =~= marks@);
        assert(views(rows@) =~= marks@.map_values(|m: Watermark| watermark_entry(m)));
    }
    Json::object().with("topic", Json::str(topic)).with("partitions", Json::array(rows)).with(
        "total",
        Json::Int(total as i128),
    )
}

// ---- lag, in one answer ----

/// How far a group is in a partition: the offset that it committed, if it did, and
/// the end of the partition.
#[derive(Debug, PartialEq, Eq, Clone, Copy)]
pub struct Progress {
    pub partition: i32,
    pub committed: Option<i64>,
    pub high: i64,
}

impl Progress {
    /// The offset that the group committed: the start, where it committed none.
    pub open spec fn position(self) -> int {
        match self.committed {
            Some(o) => o as int,
            None => 0,
        }
    }

    /// How many messages the group has yet to read.
    pub open spec fn lag(self) -> int {
        if self.high > self.position() {
            self.high - self.position()
        } else {
            0
        }
    }

    /// The group's lag in the partition as an object.
    pub open spec fn entry(self) -> JsonView {
        JsonView::object().with("partition"@, JsonView::Int(self.partition as int)).with(
            "committed"@,
            JsonView::Int(self.position()),
        ).with("high"@, JsonView::Int(self.high as int)).with("lag"@, JsonView::Int(self.lag()))
    }
}

/// Which group's lag is asked for, and in which topic.
pub open spec fn lag_request(opts: JsonView) -> Result<(Seq<char>, Seq<char>), Seq<char>> {
    match (opts.text("group"@), opts.text("topic"@)) {
        (None, _) => Err("missing group"@),
        (Some(_), None) => Err("missing topic (lag is reported per topic)"@),
        (Some(group), Some(topic)) => Ok((group, topic)),
    }
}

/// Reads which group's lag is asked for.
pub fn parse_lag_request(opts: &Json) -> (r: Result<(String, String), OpError>)
    ensures
        match (r, lag_request(opts@)) {
            (Ok((group, topic)), Ok((g, t))) => group@ == g && topic@ == t,
            (Err(e), Err(message)) => e@ == message,
            _ => false,
        },
{
    match (opts.text("group"), opts.text("topic")) {
        (None, _) => Err(OpError::new("missing group")),
        (Some(_), None) => Err(OpError::new("missing topic (lag is reported per topic)")),
        (Some(group), Some(topic)) => Ok((group.to_owned(), topic.to_owned())),
    }
}

/// How many messages a group has yet to read in all.
pub open spec fn total_lag(parts: Seq<Progress>) -> int
    decreases parts.len(),
{
    if parts.len() == 0 {
        0
    } else {
        total_lag(parts.drop_last()) + parts.last().lag()
    }
}

/// The distances, one by one, and the lags added up are numbers of 64 bits.
pub open spec fn lags_fit(parts: Seq<Progress>) -> bool
    decreases parts.len(),
{
    parts.len() > 0 ==> {
        &&& lags_fit(parts.drop_last())
        &&& fits(parts.last().high - parts.last().position())
        &&& fits(total_lag(parts))
    }
}

proof fn lemma_lags_fit(parts: Seq<Progress>, n: int)
    requires
        0 <= n <= parts.len(),
        lags_fit(parts),
    ensures
        lags_fit(parts.take(n)),
    decreases parts.len(),
{
    if n == parts.len() {
        assert(parts.take(n) =~= parts);
    } else {
        assert(parts.drop_last().take(n) =~= parts.take(n));
        lemma_lags_fit(parts.drop_last(), n);
    }
}

/// Whether the distances, one by one, and the lags added up are numbers of 64 bits.
pub fn check_lags_fit(parts: &Vec<Progress>) -> (r: bool)
    ensures
        r == lags_fit(parts@),
{
    let mut total: i64 = 0;
    let mut i: usize = 0;
    assert(parts@.take(0) =~= Seq::empty());
    while i < parts.len()
        invariant
            i <= parts@.len(),
            lags_fit(parts@.take(i as int)),
            total == total_lag(parts@.take(i as int)),
        decreases parts@.len() - i,
    {
        let position: i64 = match parts[i].committed {
            Some(o) => o,
            None => 0,
        };
        let distance: i128 = parts[i].high as i128 - position as i128;
        let sum: i128 = total as i128 + if distance > 0 {
            distance
        } else {
            0
        };
        proof {
            assert(parts@.take(i + 1).drop_last() =~= parts@.take(i as int));
        }
        if !(i64::MIN as i128 <= distance && distance <= i64::MAX as i128 && i64::MIN as i128
            <= sum && sum <= i64::MAX as i128) {
            proof {
                if lags_fit(parts@) {
                    lemma_lags_fit(parts@, i + 1);
                }
            }
            return false;
        }
        total = sum as i64;
        i = i + 1;
    }
    assert(parts@.take(i as int) =~= parts@);
    true
}

/// The answer about a group's lag in a topic.
pub open spec fn lag_answer(group: Seq<char>, topic: Seq<char>, parts: Seq<Progress>) -> JsonView {
    JsonView::object().with("group"@, JsonView::Str(group)).with(
        "topic"@,
        JsonView::Str(topic),
    ).with("partitions"@, JsonView::Array(parts.map_values(|p: Progress| p.entry()))).with(
        "total_lag"@,
        JsonView::Int(total_lag(parts)),
    )
}

/// The answer about a group's lag in a topic: the lag in each partition, and in all.
pub fn lag_reply(group: &str, topic: &str, parts: &Vec<Progress>) -> (r: Json)
    requires
        lags_fit(parts@),
    ensures
        r@ == lag_answer(group@, topic@, parts@),
        r@ == JsonView::object().with("group"@, JsonView::Str(group@)).with(
            "topic"@,
            JsonView::Str(topic@),
        ).with(
            "partitions"@,
            JsonView::Array(parts@.map_values(|p: Progress| p.entry())),
        ).with("total_lag"@, JsonView::Int(total_lag(parts@))),
{
    let mut rows: Vec<Json> = Vec::new();
    let mut total: i64 = 0;
    let mut i: usize = 0;
    assert(parts@.take(0) =~= Seq::empty());
    while i < parts.len()
        invariant
            i <= parts@.len(),
            lags_fit(parts@),
            rows@.len() == i,
            forall|j: int| 0 <= j < i ==> (#[trigger] rows@[j])@ == parts@[j].entry(),
            total == total_lag(parts@.take(i as int)),
        decreases parts@.len() - i,
    {
        let part = parts[i];
        proof {
            assert(parts@.take(i + 1).drop_last() =~= parts@.take(i as int));
            lemma_lags_fit(parts@, i + 1);
        }
        let position: i64 = match part.committed {
            Some(o) => o,
            None => 0,
        };
        let distance: i64 = part.high - position;
        let lag: i64 = if distance > 0 {
            distance
        } else {
            0
        };
        total = total + lag;
        rows.push(
            Json::object().with("partition", Json::Int(part.partition as i128)).with(
                "committed",
                Json::Int(position as i128),
            ).with("high", Json::Int(part.high as i128)).with("lag", Json::Int(lag as i128)),
        );
        i = i + 1;
    }
    proof {
        assert(parts@.take(i as int) =~= parts@);
        assert(views(rows@) =~= parts@.map_values(|p: Progress| p.entry()));
    }
    Json::object().with("group", Json::str(group)).with("topic", Json::str(topic)).with(
        "partitions",
        Json::array(rows),
    ).with("total_lag", Json::Int(total as i128))
}

/// No lag is negative, and the lag in all is no smaller than that in a partition.
pub proof fn law_lag_not_negative(parts: Seq<Progress>, i: int)
    requires
        0 <= i < parts.len(),
    ensures
        0 <= parts[i].lag() <= total_lag(parts),
    decreases parts.len(),
{
    lemma_total_lag(parts.drop_last());
    if i < parts.len() - 1 {
        law_lag_not_negative(parts.drop_last(), i);
    }
}

proof fn lemma_total_lag(parts: Seq<Progress>)
    ensures
        total_lag(parts) >= 0,
    decreases parts.len(),
{
    if parts.len() > 0 {
        lemma_total_lag(parts.drop_last());
    }
}

// ---- lag, line by line ----

/// A group's lag being told line by line, and the lag so far.
#[derive(Debug)]
pub struct GroupLag {
    pub group: String,
    pub total: i64,
}

/// The model of a group's lag being told line by line.
pub struct GroupLagView {
    pub group: Seq<char>,
    pub total: int,
}

impl View for GroupLag {
    type V = GroupLagView;

    open spec fn view(&self) -> GroupLagView {
        GroupLagView { group: self.group@, total: self.total as int }
    }
}

/// A partition that is told of.
pub struct LagRow {
    pub topic: Seq<char>,
    pub partition: i32,
    pub committed: Option<i64>,
    pub low: i64,
    pub high: i64,
}

/// The committed offset that is shown where there is none.
pub open spec fn shown_offset(committed: Option<i64>) -> int {
    match committed {
        Some(o) => o as int,
        None => -1,
    }
}

/// How many messages a group has yet to read between the watermarks of a partition:
/// all of them, where it has committed no offset.
pub open spec fn lag_between(committed: Option<i64>, low: i64, high: i64) -> int {
    let position = shown_offset(committed);
    if position < 0 {
        high - low
    } else if high > position {
        high - position
    } else {
        0
    }
}

impl LagRow {
    /// How many messages the group has yet to read in the partition.
    pub open spec fn lag(self) -> int {
        lag_between(self.committed, self.low, self.high)
    }
}

impl GroupLagView {
    /// The line about one partition.
    pub open spec fn line(self, row: LagRow) -> JsonView {
        JsonView::object().with("group"@, JsonView::Str(self.group)).with(
            "topic"@,
            JsonView::Str(row.topic),
        ).with("partition"@, JsonView::Int(row.partition as int)).with(
            "committed"@,
            JsonView::Int(shown_offset(row.committed)),
        ).with("low_watermark"@, JsonView::Int(row.low as int)).with(
            "high_watermark"@,
            JsonView::Int(row.high as int),
        ).with("lag"@, JsonView::Int(row.lag()))
    }

    /// The lag so far, once one more partition was told of.
    pub open spec fn after(self, row: LagRow) -> GroupLagView {
        GroupLagView { total: self.total + row.lag(), ..self }
    }

    /// The lag so far, once partitions were told of one after the other.
    pub open spec fn after_all(self, rows: Seq<LagRow>) -> GroupLagView
        decreases rows.len(),
    {
        if rows.len() == 0 {
            self
        } else {
            self.after_all(rows.drop_last()).after(rows.last())
        }
    }

    /// The only line, where there is no partition to tell of.
    pub open spec fn nothing(self) -> JsonView {
        JsonView::object().with("group"@, JsonView::Str(self.group)).with(
            "topics"@,
            JsonView::Array(Seq::empty()),
        )
    }

    /// The last line: the lag in all.
    pub open spec fn summary(self) -> JsonView {
        JsonView::object().with("group"@, JsonView::Str(self.group)).with(
            "total_lag"@,
            JsonView::Int(self.total),
        )
    }
}

/// The lags of partitions, added up.
pub open spec fn lag_sum(rows: Seq<LagRow>) -> int
    decreases rows.len(),
{
    if rows.len() == 0 {
        0
    } else {
        lag_sum(rows.drop_last()) + rows.last().lag()
    }
}

/// The last line shows the lags of all the lines before it, added up.
pub proof fn law_summary_adds_up(start: GroupLagView, rows: Seq<LagRow>)
    requires
        start.total == 0,
    ensures
        start.after_all(rows).summary() == JsonView::object().with(
            "group"@,
            JsonView::Str(start.group),
        ).with("total_lag"@, JsonView::Int(lag_sum(rows))),
{
    lemma_after_all(start, rows);
}

proof fn lemma_after_all(start: GroupLagView, rows: Seq<LagRow>)
    ensures
        start.after_all(rows).group == start.group,
        start.after_all(rows).total == start.total + lag_sum(rows),
    decreases rows.len(),
{
    if rows.len() > 0 {
        lemma_after_all(start, rows.drop_last());
    }
}

impl GroupLag {
    /// The lag in one more partition can be told.
    pub open spec fn takes(self, committed: Option<i64>, low: i64, high: i64) -> bool {
        &&& fits(
            high - if shown_offset(committed) < 0 {
                low as int
            } else {
                shown_offset(committed)
            },
        )
        &&& fits(self.total + lag_between(committed, low, high))
    }

    /// Whether the lag in one more partition can be told.
    pub fn can_take(&self, committed: Option<i64>, low: i64, high: i64) -> (r: bool)
        ensures
            r == self.takes(committed, low, high),
    {
        let position: i64 = match committed {
            Some(o) => o,
            None => -1,
        };
        let distance: i128 = high as i128 - if position < 0 {
            low as i128
        } else {
            position as i128
        };
        let lag: i128 = if position >= 0 && distance < 0 {
            0
        } else {
            distance
        };
        let sum: i128 = self.total as i128 + lag;
        i64::MIN as i128 <= distance && distance <= i64::MAX as i128 && i64::MIN as i128 <= sum
            && sum <= i64::MAX as i128
    }

    /// The line about one partition.
    pub fn row(
        &mut self,
        topic: &str,
        partition: i32,
        committed: Option<i64>,
        low: i64,
        high: i64,
    ) -> (r: Json)
        requires
            old(self).takes(committed, low, high),
        ensures
            final(self)@ == old(self)@.after(
                (LagRow { topic: topic@, partition, committed, low, high }),
            ),
            r@ == old(self)@.line((LagRow { topic: topic@, partition, committed, low, high })),
    {
        let position: i64 = match committed {
            Some(o) => o,
            None => -1,
        };
        let lag: i64 = if position < 0 {
            high - low
        } else {
            let distance: i64 = high - position;
            if distance > 0 {
                distance
            } else {
                0
            }
        };
        self.total = self.total + lag;
        Json::object().with("group", Json::str(self.group.as_str())).with(
            "topic",
            Json::str(topic),
        ).with("partition", Json::Int(partition as i128)).with(
            "committed",
            Json::Int(position as i128),
        ).with("low_watermark", Json::Int(low as i128)).with(
            "high_watermark",
            Json::Int(high as i128),
        ).with("lag", Json::Int(lag as i128))
    }

    /// The last line: the lag in all.
    pub fn summary(&self) -> (r: Json)
        ensures
            r@ == self@.summary(),
    {
        Json::object().with("group", Json::str(self.group.as_str())).with(
            "total_lag",
            Json::Int(self.total as i128),
        )
    }

    /// The only line, where there is no partition to tell of.
    pub fn nothing(&self) -> (r: Json)
        ensures
            r@ == self@.nothing(),
            r@ == JsonView::object().with("group"@, JsonView::Str(self.group@)).with(
                "topics"@,
                JsonView::Array(Seq::empty()),
            ),
    {
        let none: Vec<Json> = Vec::new();
        assert(views(none@) =~= Seq::empty());
        Json::object().with("group", Json::str(self.group.as_str())).with(
            "topics",
            Json::array(none),
        )
    }
}

/// Both ways of telling a group's lag agree where it has committed an offset, and
/// also where it has not but no message was deleted yet.
pub proof fn law_lags_agree(part: Progress, low: i64)
    requires
        match part.committed {
            Some(o) => o >= 0,
            None => low == 0 && part.high >= 0,
        },
    ensures
        lag_between(part.committed, low, part.high) == part.lag(),
{
}

// ---- offsets by time ----

/// Which topic's offsets are asked for, and of which time.
pub open spec fn times_request(opts: JsonView) -> Result<(Seq<char>, i64), Seq<char>> {
    match (opts.text("topic"@), opts.signed("timestamp"@)) {
        (None, _) => Err("missing topic"@),
        (Some(_), None) => Err("missing timestamp (epoch millis)"@),
        (Some(topic), Some(timestamp)) => Ok((topic, timestamp)),
    }
}

/// Reads which offsets are asked for.
pub fn parse_times_request(opts: &Json) -> (r: Result<(String, i64), OpError>)
    ensures
        match (r, times_request(opts@)) {
            (Ok((topic, timestamp)), Ok((t, ts))) => topic@ == t && timestamp == ts,
            (Err(e), Err(message)) => e@ == message,
            _ => false,
        },
{
    match (opts.text("topic"), opts.signed("timestamp")) {
        (None, _) => Err(OpError::new("missing topic")),
        (Some(_), None) => Err(OpError::new("missing timestamp (epoch millis)")),
        (Some(topic), Some(timestamp)) => Ok((topic.to_owned(), timestamp)),
    }
}

/// The offset of a partition as an object, null where no message is as late.
pub open spec fn offset_entry(partition: i32, offset: Option<i64>) -> JsonView {
    JsonView::object().with("partition"@, JsonView::Int(partition as int)).with(
        "offset"@,
        JsonView::opt_int(offset),
    )
}

/// The answer about offsets at a time, given the entries that were found.
pub open spec fn times_answer(
    topic: Seq<char>,
    timestamp: i64,
    found: Seq<(Seq<char>, i32, Option<i64>)>,
) -> JsonView {
    JsonView::object().with("topic"@, JsonView::Str(topic)).with(
        "timestamp"@,
        JsonView::Int(timestamp as int),
    ).with(
        "partitions"@,
        JsonView::Array(
            found.map_values(|e: (Seq<char>, i32, Option<i64>)| offset_entry(e.1, e.2)),
        ),
    )
}

/// The answer about offsets at a time, given the partitions with the offsets that were
/// found: the offset in each partition, where there is a message at that time or later.
pub fn times_reply(topic: &str, timestamp: i64, found: &TopicPartitionList) -> (r: Json)
    ensures
        r@ == times_answer(topic@, timestamp, listed(*found)),
        r@ == JsonView::object().with("topic"@, JsonView::Str(topic@)).with(
            "timestamp"@,
            JsonView::Int(timestamp as int),
        ).with(
            "partitions"@,
            JsonView::Array(
                listed(*found).map_values(
                    |e: (Seq<char>, i32, Option<i64>)| offset_entry(e.1, e.2),
                ),
            ),
        ),
{
    let entries = read_list(found);
    let ghost all = listed(*found);
    let mut rows: Vec<Json> = Vec::new();
    let mut i: usize = 0;
    assert(entry_views(entries@).len() == entries@.len());
    while i < entries.len()
        invariant
            i <= entries@.len(),
            rows@.len() == i,
            all == entry_views(entries@),
            forall|j: int|
                0 <= j < i ==> (#[trigger] rows@[j])@ == offset_entry(all[j].1, all[j].2),
        decreases entries@.len() - i,
    {
        let (partition, offset) = (entries[i].1, entries[i].2);
        assert(all[i as int] == (entries@[i as int].0@, partition, offset));
        rows.push(
            Json::object().with("partition", Json::Int(partition as i128)).with(
                "offset",
                Json::opt_int(offset),
            ),
        );
        i = i + 1;
    }
    assert(views(rows@) =~= all.map_values(
        |e: (Seq<char>, i32, Option<i64>)| offset_entry(e.1, e.2),
    ));
    Json::object().with("topic", Json::str(topic)).with(
        "timestamp",
        Json::Int(timestamp as i128),
    ).with("partitions", Json::array(rows))
}

// ---- what is asked for and told ----

/// Watermarks are asked for by the text of a topic, and of one partition alone where a
/// number is under `partition`, of which 32 bits count. A group's lag is asked for by the
/// texts of a group and a topic, offsets at a time by the text of a topic and a number
/// under `timestamp`. What is missing is named.
pub proof fn law_offsets_as_asked(opts: JsonView)
    ensures
        match opts.get("topic"@) {
            Some(JsonView::Str(topic)) => watermarks_request(opts) matches Ok((t, partition)) && t
                == topic && match opts.get("partition"@) {
                Some(JsonView::Int(n)) if i64::MIN <= n <= i64::MAX => partition matches Some(p)
                    && i32::MIN <= p <= i32::MAX && (n - p) % 0x1_0000_0000 == 0,
                _ => partition is None,
            },
            _ => watermarks_request(opts) matches Err(message) && message == "missing topic"@,
        },
        match (opts.get("group"@), opts.get("topic"@)) {
            (Some(JsonView::Str(group)), Some(JsonView::Str(topic))) => lag_request(opts) == Ok::<
                (Seq<char>, Seq<char>),
                Seq<char>,
            >((group, topic)),
            (Some(JsonView::Str(_)), _) => lag_request(opts) == Err::<
                (Seq<char>, Seq<char>),
                Seq<char>,
            >("missing topic (lag is reported per topic)"@),
            _ => lag_request(opts) == Err::<(Seq<char>, Seq<char>), Seq<char>>("missing group"@),
        },
        match opts.get("topic"@) {
            Some(JsonView::Str(topic)) => match opts.get("timestamp"@) {
                Some(JsonView::Int(n)) if i64::MIN <= n <= i64::MAX => times_request(opts) == Ok::<
                    (Seq<char>, i64),
                    Seq<char>,
                >((topic, n as i64)),
                _ => times_request(opts) == Err::<(Seq<char>, i64), Seq<char>>(
                    "missing timestamp (epoch millis)"@,
                ),
            },
            _ => times_request(opts) == Err::<(Seq<char>, i64), Seq<char>>("missing topic"@),
        },
{
}

/// Watermarks are told of partition by partition, in their order: each with its number,
/// its first and its last offset, and how far they are apart; and by how far they are
/// apart in all.
pub proof fn law_watermarks_told(topic: Seq<char>, marks: Seq<Watermark>, i: int)
    ensures
        ({
            let answer = watermarks_answer(topic, marks);
            &&& answer.get("topic"@) == Some(JsonView::Str(topic))
            &&& answer.get("total"@) == Some(JsonView::Int(message_count(marks)))
            &&& match answer.get("partitions"@) {
                Some(JsonView::Array(rows)) => rows.len() == marks.len() && (0 <= i < rows.len()
                    ==> rows[i].get("partition"@) == Some(JsonView::Int(marks[i].partition as int))
                    && rows[i].get("low"@) == Some(JsonView::Int(marks[i].low as int))
                    && rows[i].get("high"@) == Some(JsonView::Int(marks[i].high as int))
                    && rows[i].get("count"@) == Some(JsonView::Int(marks[i].high - marks[i].low))),
                _ => false,
            }
        }),
{
    broadcast use group_members;

    reveal_strlit("topic");
    reveal_strlit("total");
    reveal_strlit("partitions");
    assert("topic"@.len() == 5
        && "total"@.len() == 5
        && "partitions"@.len() == 10);
    assert("topic"@[2] == 'p');
    assert("total"@[2] == 't');
    reveal_strlit("partition");
    reveal_strlit("low");
    reveal_strlit("high");
    reveal_strlit("count");
    assert("partition"@.len() == 9
        && "low"@.len() == 3
        && "high"@.len() == 4
        && "count"@.len() == 5);
}

/// What lies between the watermarks adds up partition by partition.
pub proof fn law_message_count(marks: Seq<Watermark>, mark: Watermark)
    ensures
        message_count(Seq::empty()) == 0,
        message_count(marks.push(mark)) == message_count(marks) + (mark.high - mark.low),
{
    assert(marks.push(mark).drop_last() =~= marks);
}

/// A group's lag is told of partition by partition, in their order: each with its number,
/// the offset committed, zero where none is, the end, and how far that is behind the end,
/// never less than nothing; and by the lag in all.
pub proof fn law_lag_told(group: Seq<char>, topic: Seq<char>, parts: Seq<Progress>, i: int)
    ensures
        ({
            let answer = lag_answer(group, topic, parts);
            &&& answer.get("group"@) == Some(JsonView::Str(group))
            &&& answer.get("topic"@) == Some(JsonView::Str(topic))
            &&& answer.get("total_lag"@) == Some(JsonView::Int(total_lag(parts)))
            &&& match answer.get("partitions"@) {
                Some(JsonView::Array(rows)) => rows.len() == parts.len() && (0 <= i < rows.len()
                    ==> {
                    let p = parts[i];
                    let committed = match p.committed {
                        Some(o) => o as int,
                        None => 0,
                    };
                    &&& rows[i].get("partition"@) == Some(JsonView::Int(p.partition as int))
                    &&& rows[i].get("committed"@) == Some(JsonView::Int(committed))
                    &&& rows[i].get("high"@) == Some(JsonView::Int(p.high as int))
                    &&& rows[i].get("lag"@) == Some(
                        JsonView::Int(
                            if p.high > committed {
                                p.high - committed
                            } else {
                                0
                            },
                        ),
                    )
                }),
                _ => false,
            }
        }),
{
    broadcast use group_members;

    reveal_strlit("group");
    reveal_strlit("topic");
    reveal_strlit("total_lag");
    reveal_strlit("partitions");
    assert("group"@.len() == 5
        && "topic"@.len() == 5
        && "total_lag"@.len() == 9
        && "partitions"@.len() == 10);
    assert("group"@[0] == 'g');
    assert("topic"@[0] == 't');
    reveal_strlit("partition");
    reveal_strlit("committed");
    reveal_strlit("high");
    reveal_strlit("lag");
    assert("partition"@.len() == 9
        && "committed"@.len() == 9
        && "high"@.len() == 4
        && "lag"@.len() == 3);
    assert("partition"@[0] == 'p');
    assert("committed"@[0] == 'c');
}

/// The lag in all adds up partition by partition.
pub proof fn law_total_lag(parts: Seq<Progress>, part: Progress)
    ensures
        total_lag(Seq::empty()) == 0,
        total_lag(parts.push(part)) == total_lag(parts) + match part.committed {
            Some(o) => if part.high > o {
                part.high - o
            } else {
                0
            },
            None => if part.high > 0 {
                part.high as int
            } else {
                0
            },
        },
{
    assert(parts.push(part).drop_last() =~= parts);
}

/// The line about a partition has the group, the topic, the partition and its watermarks;
/// the offset committed, -1 where none is; and the lag: to the end from that offset, never
/// less than nothing, or from the first offset where none is committed. The total grows by
/// that lag.
pub proof fn law_lag_line(lag: GroupLagView, row: LagRow)
    ensures
        ({
            let line = lag.line(row);
            let behind = match row.committed {
                Some(o) => if o < 0 {
                    row.high - row.low
                } else if row.high > o {
                    row.high - o
                } else {
                    0
                },
                None => row.high - row.low,
            };
            &&& line.get("group"@) == Some(JsonView::Str(lag.group))
            &&& line.get("topic"@) == Some(JsonView::Str(row.topic))
            &&& line.get("partition"@) == Some(JsonView::Int(row.partition as int))
            &&& line.get("committed"@) == Some(
                JsonView::Int(
                    match row.committed {
                        Some(o) => o as int,
                        None => -1,
                    },
                ),
            )
            &&& line.get("low_watermark"@) == Some(JsonView::Int(row.low as int))
            &&& line.get("high_watermark"@) == Some(JsonView::Int(row.high as int))
            &&& line.get("lag"@) == Some(JsonView::Int(behind))
            &&& lag.after(row).total == lag.total + behind
            &&& lag.after(row).group == lag.group
            &&& lag.summary().get("group"@) == Some(JsonView::Str(lag.group))
            &&& lag.summary().get("total_lag"@) == Some(JsonView::Int(lag.total))
        }),
{
    broadcast use group_members;

    reveal_strlit("group");
    reveal_strlit("topic");
    reveal_strlit("partition");
    reveal_strlit("committed");
    reveal_strlit("low_watermark");
    reveal_strlit("high_watermark");
    reveal_strlit("lag");
    reveal_strlit("total_lag");
    assert("group"@.len() == 5
        && "topic"@.len() == 5
        && "partition"@.len() == 9
        && "committed"@.len() == 9
        && "low_watermark"@.len() == 13
        && "high_watermark"@.len() == 14
        && "lag"@.len() == 3
        && "total_lag"@.len() == 9);
    assert("group"@[0] == 'g');
    assert("topic"@[0] == 't');
    assert("partition"@[0] == 'p');
    assert("committed"@[0] == 'c');
    assert("total_lag"@[0] == 't');
}

/// The model of a group's lag holds what it holds.
pub proof fn law_group_lag_model(lag: GroupLag)
    ensures
        lag@.group == lag.group@,
        lag@.total == lag.total,
{
}

/// Offsets at a time are told of entry by entry, in their order: each by its partition and
/// its offset, null exactly where it has none.
pub proof fn law_times_told(
    topic: Seq<char>,
    timestamp: i64,
    found: Seq<(Seq<char>, i32, Option<i64>)>,
    i: int,
)
    ensures
        ({
            let answer = times_answer(topic, timestamp, found);
            &&& answer.get("topic"@) == Some(JsonView::Str(topic))
            &&& answer.get("timestamp"@) == Some(JsonView::Int(timestamp as int))
            &&& match answer.get("partitions"@) {
                Some(JsonView::Array(rows)) => rows.len() == found.len() && (0 <= i < rows.len()
                    ==> rows[i].get("partition"@) == Some(JsonView::Int(found[i].1 as int))
                    && rows[i].get("offset"@) == Some(
                    match found[i].2 {
                        Some(o) => JsonView::Int(o as int),
                        None => JsonView::Null,
                    },
                )),
                _ => false,
            }
        }),
{
    broadcast use group_members;

    reveal_strlit("topic");
    reveal_strlit("timestamp");
    reveal_strlit("partitions");
    assert("topic"@.len() == 5
        && "timestamp"@.len() == 9
        && "partitions"@.len() == 10);
    reveal_strlit("partition");
    reveal_strlit("offset");
    assert("partition"@.len() == 9
        && "offset"@.len() == 6);
}

/// What is counted is counted in 64 bits: watermarks can be told of where every distance
/// and every sum on the way fits, and so can lags.
pub proof fn law_counts_in_range(
    n: int,
    marks: Seq<Watermark>,
    mark: Watermark,
    parts: Seq<Progress>,
    part: Progress,
)
    ensures
        fits(n) <==> -0x8000_0000_0000_0000 <= n <= 0x7fff_ffff_ffff_ffff,
        counts_fit(Seq::empty()),
        counts_fit(marks.push(mark)) <==> counts_fit(marks) && fits(mark.high - mark.low) && fits(
            message_count(marks.push(mark)),
        ),
        lags_fit(Seq::empty()),
        lags_fit(parts.push(part)) <==> lags_fit(parts) && fits(
            part.high - match part.committed {
                Some(o) => o as int,
                None => 0,
            },
        ) && fits(total_lag(parts.push(part))),
{
    assert(marks.push(mark).drop_last() =~= marks);
    assert(parts.push(part).drop_last() =~= parts);
}

/// The lag in one more partition can be told of exactly where the distance and the total
/// fit in 64 bits.
pub proof fn law_lag_line_in_range(lag: GroupLag, row: LagRow)
    ensures
        lag.takes(row.committed, row.low, row.high) <==> fits(lag@.after(row).total) && fits(
            row.high - match row.committed {
                Some(o) if o >= 0 => o as int,
                _ => row.low as int,
            },
        ),
{
}

/// Where there is no partition to tell of, the only line has the group, and no topics.
pub proof fn law_no_lag_line(lag: GroupLagView)
    ensures
        lag.nothing().get("group"@) == Some(JsonView::Str(lag.group)),
        lag.nothing().get("topics"@) matches Some(JsonView::Array(topics)) && topics.len() == 0,
        lag.nothing().get("total_lag"@) is None,
{
    broadcast use group_members;

    reveal_strlit("group");
    reveal_strlit("topics");
    reveal_strlit("total_lag");
    assert("group"@.len() == 5
        && "topics"@.len() == 6
        && "total_lag"@.len() == 9);
}

} // verus!
