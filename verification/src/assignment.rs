//! Partition assignment: how a consumer group shares out the partitions of a
//! topic.

use vstd::arithmetic::div_mod::*;
use vstd::prelude::*;
use vstd::string::*;

use crate::error::{agrees, OpError};
use crate::json::{group_members, lookup, member_views, views, Json, JsonView};
use crate::order::{law_sorted, law_text_order, sort, sorted_texts, text_le};
use crate::text::{str_eq, texts};

verus! {

/// The texts of a list of strings, if all of its items are strings.
pub open spec fn all_texts(items: Seq<JsonView>) -> Option<Seq<Seq<char>>> {
    if forall|i: int| 0 <= i < items.len() ==> (#[trigger] items[i]).as_str() is Some {
        Some(items.map_values(|v: JsonView| v.as_str().unwrap()))
    } else {
        None
    }
}

/// The member list asked for: `consumers`, or `members` where there is no
/// member `consumers`.
pub open spec fn asked_members(opts: JsonView) -> Option<Seq<JsonView>> {
    if opts.get("consumers"@) is Some {
        opts.items("consumers"@)
    } else {
        opts.items("members"@)
    }
}

/// What both assignors start from: how many partitions there are, and the ids
/// of the members in ascending order.
pub open spec fn assignment_inputs(opts: JsonView) -> Result<
    (u64, Seq<Seq<char>>),
    Seq<char>,
> {
    match opts.unsigned("partitions"@) {
        None => Err("missing partitions (count)"@),
        Some(partitions) => if partitions == 0 {
            Err("partitions must be > 0"@)
        } else {
            match asked_members(opts) {
                None => Err("missing consumers (array of member ids)"@),
                Some(items) => match all_texts(items) {
                    None => Err("consumer id must be a string"@),
                    Some(ids) => if ids.len() == 0 {
                        Err("consumers is empty"@)
                    } else {
                        Ok((partitions, sorted_texts(ids)))
                    },
                },
            }
        },
    }
}

fn texts_of(items: &Vec<Json>) -> (r: Option<Vec<String>>)
    ensures
        match r {
            Some(list) => all_texts(views(items@)) == Some(texts(list@)),
            None => all_texts(views(items@)) is None,
        },
{
    let mut out: Vec<String> = Vec::new();
    let mut i: usize = 0;
    while i < items.len()
        invariant
            i <= items@.len(),
            out@.len() == i,
            forall|j: int|
                0 <= j < i ==> (#[trigger] views(items@)[j]).as_str() == Some(out@[j]@),
        decreases items@.len() - i,
    {
        assert(views(items@)[i as int] == items@[i as int]@);
        match items[i].as_str() {
            Some(s) => {
                out.push(s.to_owned());
            },
            None => {
                return None;
            },
        }
        i = i + 1;
    }
    assert(all_texts(views(items@)).unwrap() =~= texts(out@));
    Some(out)
}

/// Reads and checks what both assignors start from.
pub fn parse_assignment_inputs(opts: &Json) -> (r: Result<(u64, Vec<String>), OpError>)
    ensures
        match (r, assignment_inputs(opts@)) {
            (Ok((partitions, members)), Ok(m)) => partitions == m.0 && texts(members@) == m.1,
            (Err(e), Err(m)) => e@ == m,
            _ => false,
        },
        r matches Ok((partitions, members)) ==> partitions > 0 && members@.len() > 0,
{
    let partitions: u64 = match opts.unsigned("partitions") {
        Some(partitions) => partitions,
        None => {
            return Err(OpError::new("missing partitions (count)"));
        },
    };
    if partitions == 0 {
        return Err(OpError::new("partitions must be > 0"));
    }
    let items = match opts.get("consumers") {
        Some(v) => v.as_array(),
        None => opts.items("members"),
    };
    let items = match items {
        Some(items) => items,
        None => {
            return Err(OpError::new("missing consumers (array of member ids)"));
        },
    };
    match texts_of(items) {
        None => Err(OpError::new("consumer id must be a string")),
        Some(ids) => {
            if ids.len() == 0 {
                return Err(OpError::new("consumers is empty"));
            }
            proof {
                law_sorted(texts(ids@));
            }
            let members = sort(ids);
            assert(texts(members@).len() == members@.len());
            Ok((partitions, members))
        },
    }
}

// ---- members, each once ----

/// A sorted list with each text once.
pub open spec fn distinct(list: Seq<Seq<char>>) -> Seq<Seq<char>>
    decreases list.len(),
{
    if list.len() == 0 {
        Seq::empty()
    } else {
        let before = distinct(list.drop_last());
        if list.len() >= 2 && list[list.len() - 2] == list.last() {
            before
        } else {
            before.push(list.last())
        }
    }
}

/// Ascending order, in which equal texts stand side by side.
spec fn ascending(list: Seq<Seq<char>>) -> bool {
    forall|i: int, j: int|
        0 <= i <= j < list.len() ==> text_le(#[trigger] list[i], #[trigger] list[j])
}

/// What an assignment says: the partitions of each member.
pub open spec fn assignment_object(
    members: Seq<Seq<char>>,
    parts: spec_fn(Seq<char>) -> Seq<u64>,
) -> JsonView {
    JsonView::Object(
        distinct(members).map_values(|m: Seq<char>| (m, JsonView::numbers(parts(m)))),
    )
}

/// The members, each once, and for every place in the list where its member
/// stands among them.
struct Roster {
    names: Vec<String>,
    slots: Vec<usize>,
}

impl Roster {
    spec fn describes(self, members: Seq<Seq<char>>) -> bool {
        &&& texts(self.names@) == distinct(members)
        &&& texts(self.names@).no_duplicates()
        &&& self.slots@.len() == members.len()
        &&& forall|i: int|
            0 <= i < members.len() ==> {
                &&& #[trigger] self.slots@[i] < self.names@.len()
                &&& self.names@[self.slots@[i] as int]@ == members[i]
            }
    }

    fn of(members: &Vec<String>) -> (r: Roster)
        requires
            ascending(texts(members@)),
        ensures
            r.describes(texts(members@)),
    {
        let mut names: Vec<String> = Vec::new();
        let mut slots: Vec<usize> = Vec::new();
        let ghost all = texts(members@);
        let mut i: usize = 0;
        proof {
            law_text_order();
            assert(all.take(0) =~= Seq::empty());
            assert(texts(names@) =~= Seq::empty());
        }
        while i < members.len()
            invariant
                i <= members@.len(),
                all == texts(members@),
                ascending(all),
                texts(names@) == distinct(all.take(i as int)),
                texts(names@).no_duplicates(),
                slots@.len() == i,
                i > 0 ==> names@.len() > 0 && names@.last()@ == all[i - 1],
                forall|j: int|
                    0 <= j < names@.len() ==> text_le(#[trigger] texts(names@)[j], all[i - 1]),
                forall|j: int|
                    0 <= j < i ==> {
                        &&& #[trigger] slots@[j] < names@.len()
                        &&& names@[slots@[j] as int]@ == all[j]
                    },
            decreases members@.len() - i,
        {
            proof {
                assert(all.take(i + 1).drop_last() =~= all.take(i as int));
                assert(all[i as int] == members@[i as int]@);
                if i > 0 {
                    assert(all.take(i + 1)[i - 1] == all[i - 1]);
                    assert(text_le(all[i - 1], all[i as int]));
                    assert(all[i - 1] == members@[i - 1]@);
                }
            }
            let ghost before = texts(names@);
            if i == 0 || !str_eq(members[i - 1].as_str(), members[i].as_str()) {
                names.push(members[i].clone());
                proof {
                    let le = |a: Seq<char>, b: Seq<char>| text_le(a, b);
                    assert(texts(names@) =~= before.push(all[i as int]));
                    assert forall|j: int| 0 <= j < names@.len() implies text_le(
                        #[trigger] texts(names@)[j],
                        all[i as int],
                    ) by {
                        law_text_order();
                        if j < before.len() {
                            assert(texts(names@)[j] == before[j]);
                            assert(le(before[j], all[i - 1]));
                            assert(le(all[i - 1], all[i as int]));
                            assert(le(before[j], all[i as int]));
                        } else {
                            assert(le(all[i as int], all[i as int]));
                        }
                    }
                    assert forall|j: int| 0 <= j < before.len() implies before[j]
                        != all[i as int] by {
                        law_text_order();
                        if before[j] == all[i as int] {
                            assert(le(all[i as int], all[i - 1]));
                            assert(le(all[i - 1], all[i as int]));
                        }
                    }
                }
            }
            slots.push(names.len() - 1);
            i = i + 1;
        }
        assert(all.take(i as int) =~= all);
        Roster { names, slots }
    }

    /// Writes an assignment down, given the partitions of each name.
    fn object(
        &self,
        lists: &Vec<Vec<u64>>,
        Ghost(members): Ghost<Seq<Seq<char>>>,
        Ghost(parts): Ghost<spec_fn(Seq<char>) -> Seq<u64>>,
    ) -> (r: Json)
        requires
            self.describes(members),
            lists@.len() == self.names@.len(),
            forall|s: int|
                0 <= s < lists@.len() ==> (#[trigger] lists@[s])@ == parts(self.names@[s]@),
        ensures
            r@ == assignment_object(members, parts),
    {
        let mut out: Vec<(String, Json)> = Vec::new();
        let mut i: usize = 0;
        while i < lists.len()
            invariant
                i <= lists@.len(),
                lists@.len() == self.names@.len(),
                out@.len() == i,
                forall|s: int|
                    0 <= s < lists@.len() ==> (#[trigger] lists@[s])@ == parts(self.names@[s]@),
                forall|s: int|
                    0 <= s < i ==> (#[trigger] out@[s]).0@ == self.names@[s]@ && out@[s].1@
                        == JsonView::numbers(parts(self.names@[s]@)),
            decreases lists@.len() - i,
        {
            out.push((self.names[i].clone(), Json::numbers(&lists[i])));
            i = i + 1;
        }
        proof {
            Json::lemma_object(out);
            assert(member_views(out@) =~= distinct(members).map_values(
                |m: Seq<char>| (m, JsonView::numbers(parts(m))),
            )) by {
                assert(distinct(members).len() == self.names@.len());
                assert forall|s: int| 0 <= s < out@.len() implies distinct(members)[s]
                    == #[trigger] self.names@[s]@ by {
                    assert(texts(self.names@)[s] == self.names@[s]@);
                }
            }
        }
        Json::Object(out)
    }
}

/// As many empty lists as asked for.
fn empty_lists(count: usize) -> (r: Vec<Vec<u64>>)
    ensures
        r@.len() == count,
        forall|s: int| 0 <= s < count ==> (#[trigger] r@[s])@ == Seq::<u64>::empty(),
{
    let mut out: Vec<Vec<u64>> = Vec::new();
    while out.len() < count
        invariant
            out@.len() <= count,
            forall|s: int| 0 <= s < out@.len() ==> (#[trigger] out@[s])@ == Seq::<u64>::empty(),
        decreases count - out@.len(),
    {
        out.push(Vec::new());
    }
    out
}

/// The answer that names an assignment, how many partitions it shares out, and
/// among whom.
pub open spec fn assignment_reply(
    partitions: u64,
    members: Seq<Seq<char>>,
    parts: spec_fn(Seq<char>) -> Seq<u64>,
) -> JsonView {
    JsonView::object().with("assignment"@, assignment_object(members, parts)).with(
        "partitions"@,
        JsonView::Int(partitions as int),
    ).with("consumers"@, JsonView::strings(members))
}

// ---- contiguous ranges ----

/// The first partition of the member in place `i` of `n`.
pub open spec fn range_start(partitions: u64, n: nat, i: int) -> int {
    let base = partitions as int / n as int;
    let extra = partitions as int % n as int;
    base * i + if i < extra {
        i
    } else {
        extra
    }
}

/// How many partitions the member in place `i` of `n` gets: the remainder goes
/// to the earlier members.
pub open spec fn range_length(partitions: u64, n: nat, i: int) -> int {
    let base = partitions as int / n as int;
    let extra = partitions as int % n as int;
    base + if i < extra {
        1int
    } else {
        0int
    }
}

/// The partitions of the member in place `i` of `n`.
pub open spec fn range_at(partitions: u64, n: nat, i: int) -> Seq<u64> {
    Seq::new(
        range_length(partitions, n, i) as nat,
        |k: int| (range_start(partitions, n, i) + k) as u64,
    )
}

/// The partitions of a member: those of the last of the first `k` places that it
/// stands in.
pub open spec fn range_owned(
    partitions: u64,
    members: Seq<Seq<char>>,
    member: Seq<char>,
    k: nat,
) -> Seq<u64>
    decreases k,
{
    if k == 0 {
        Seq::empty()
    } else if members[k - 1] == member {
        range_at(partitions, members.len(), k - 1)
    } else {
        range_owned(partitions, members, member, (k - 1) as nat)
    }
}

/// The answer for contiguous ranges.
pub open spec fn range_assignment_reply(opts: JsonView) -> Result<JsonView, Seq<char>> {
    match assignment_inputs(opts) {
        Err(message) => Err(message),
        Ok((partitions, members)) => Ok(
            assignment_reply(
                partitions,
                members,
                |m: Seq<char>| range_owned(partitions, members, m, members.len()),
            ),
        ),
    }
}

/// Each range starts where the one before ends, and the last ends with the
/// partitions.
proof fn lemma_ranges(partitions: u64, n: nat, i: int)
    requires
        0 <= i < n,
    ensures
        0 <= partitions as int / n as int <= partitions,
        0 <= (partitions as int / n as int) * i <= partitions,
        0 <= range_length(partitions, n, i) <= partitions,
        0 <= range_start(partitions, n, i),
        range_start(partitions, n, i) + range_length(partitions, n, i) == range_start(
            partitions,
            n,
            i + 1,
        ),
        range_start(partitions, n, i + 1) <= partitions,
        range_start(partitions, n, n as int) == partitions,
        range_start(partitions, n, 0) == 0,
{
    let p = partitions as int;
    let d = n as int;
    let base = p / d;
    let extra = p % d;
    assert(p == base * d + extra && 0 <= extra < d && base >= 0) by (nonlinear_arith)
        requires
            p >= 0,
            d > 0,
            base == p / d,
            extra == p % d,
    ;
    assert(base * (i + 1) == base * i + base) by (nonlinear_arith);
    assert(0 <= base * i <= base * (d - 1)) by (nonlinear_arith)
        requires
            base >= 0,
            0 <= i <= d - 1,
    ;
    assert(base * (d - 1) == base * d - base) by (nonlinear_arith);
    assert(base * 0 == 0) by (nonlinear_arith);
    assert(base <= p) by (nonlinear_arith)
        requires
            p == base * d + extra,
            extra >= 0,
            d >= 1,
            base >= 0,
    ;
    if base == 0 {
        assert(base * i == 0) by (nonlinear_arith)
            requires
                base == 0,
        ;
        assert(base * d == 0) by (nonlinear_arith)
            requires
                base == 0,
        ;
    }
}

/// The numbers from `start` up, `length` of them.
fn count_up(start: u64, length: u64) -> (r: Vec<u64>)
    requires
        start + length <= u64::MAX,
    ensures
        r@ == Seq::new(length as nat, |k: int| (start + k) as u64),
{
    let mut out: Vec<u64> = Vec::new();
    let mut k: u64 = 0;
    while k < length
        invariant
            k <= length,
            start + length <= u64::MAX,
            out@ == Seq::new(k as nat, |j: int| (start + j) as u64),
        decreases length - k,
    {
        out.push(start + k);
        k = k + 1;
        assert(out@ =~= Seq::new(k as nat, |j: int| (start + j) as u64));
    }
    out
}

/// Shares the partitions of a topic out in contiguous ranges, in the order of
/// the member ids.
pub fn op_range_assignment(opts: Json) -> (r: Result<Json, OpError>)
    ensures
        agrees(r, range_assignment_reply(opts@)),
{
    let (partitions, members) = match parse_assignment_inputs(&opts) {
        Ok(inputs) => inputs,
        Err(e) => {
            return Err(e);
        },
    };
    let ghost all = texts(members@);
    let ghost parts = |m: Seq<char>| range_owned(partitions, all, m, all.len());
    proof {
        lemma_sorted_inputs(opts@);
    }
    let roster = Roster::of(&members);
    let n: u64 = members.len() as u64;
    let base: u64 = partitions / n;
    let extra: u64 = partitions % n;
    let mut lists = empty_lists(roster.names.len());
    let mut i: usize = 0;
    while i < members.len()
        invariant
            i <= members@.len(),
            n == members@.len(),
            n > 0,
            base == partitions / n,
            extra == partitions % n,
            all == texts(members@),
            roster.describes(all),
            lists@.len() == roster.names@.len(),
            forall|s: int|
                0 <= s < lists@.len() ==> (#[trigger] lists@[s])@ == range_owned(
                    partitions,
                    all,
                    roster.names@[s]@,
                    i as nat,
                ),
        decreases members@.len() - i,
    {
        let at: u64 = i as u64;
        proof {
            lemma_ranges(partitions, n as nat, i as int);
        }
        let start: u64 = base * at + if at < extra {
            at
        } else {
            extra
        };
        let length: u64 = base + if at < extra {
            1
        } else {
            0
        };
        let list = count_up(start, length);
        assert(list@ =~= range_at(partitions, n as nat, i as int));
        let slot: usize = roster.slots[i];
        let ghost before = lists@;
        lists.set(slot, list);
        proof {
            assert forall|s: int| 0 <= s < lists@.len() implies (#[trigger] lists@[s])@
                == range_owned(partitions, all, roster.names@[s]@, (i + 1) as nat) by {
                assert(texts(roster.names@)[s] == roster.names@[s]@);
                assert(texts(roster.names@)[slot as int] == roster.names@[slot as int]@);
                if s != slot {
                    assert(lists@[s] == before[s]);
                }
            }
        }
        i = i + 1;
    }
    let assignment = roster.object(&lists, Ghost(all), Ghost(parts));
    Ok(
        Json::object().with("assignment", assignment).with(
            "partitions",
            Json::Int(partitions as i128),
        ).with("consumers", Json::strings(&members)),
    )
}

/// What both assignors start from is sorted.
proof fn lemma_sorted_inputs(opts: JsonView)
    ensures
        assignment_inputs(opts) matches Ok((partitions, members)) ==> ascending(members)
            && members.len() > 0,
{
    if let Some(items) = asked_members(opts) {
        if let Some(ids) = all_texts(items) {
            law_sorted(ids);
        }
    }
}

// ---- in turn ----

/// The member that partition `p` goes to: the members take turns.
pub open spec fn turn(members: Seq<Seq<char>>, p: int) -> Seq<char> {
    members[p % members.len() as int]
}

/// The partitions of a member among the first `k`.
pub open spec fn turns_owned(members: Seq<Seq<char>>, member: Seq<char>, k: nat) -> Seq<u64>
    decreases k,
{
    if k == 0 {
        Seq::empty()
    } else {
        let before = turns_owned(members, member, (k - 1) as nat);
        if turn(members, k - 1) == member {
            before.push((k - 1) as u64)
        } else {
            before
        }
    }
}

/// The answer for partitions given out in turn.
pub open spec fn roundrobin_assignment_reply(opts: JsonView) -> Result<JsonView, Seq<char>> {
    match assignment_inputs(opts) {
        Err(message) => Err(message),
        Ok((partitions, members)) => Ok(
            assignment_reply(
                partitions,
                members,
                |m: Seq<char>| turns_owned(members, m, partitions as nat),
            ),
        ),
    }
}

/// Gives the partitions of a topic out in turn, in the order of the member ids.
pub fn op_roundrobin_assignment(opts: Json) -> (r: Result<Json, OpError>)
    ensures
        agrees(r, roundrobin_assignment_reply(opts@)),
{
    let (partitions, members) = match parse_assignment_inputs(&opts) {
        Ok(inputs) => inputs,
        Err(e) => {
            return Err(e);
        },
    };
    let ghost all = texts(members@);
    let ghost parts = |m: Seq<char>| turns_owned(all, m, partitions as nat);
    proof {
        lemma_sorted_inputs(opts@);
    }
    let roster = Roster::of(&members);
    let n: u64 = members.len() as u64;
    let mut lists = empty_lists(roster.names.len());
    let mut p: u64 = 0;
    while p < partitions
        invariant
            p <= partitions,
            n == members@.len(),
            n > 0,
            all == texts(members@),
            roster.describes(all),
            lists@.len() == roster.names@.len(),
            forall|s: int|
                0 <= s < lists@.len() ==> (#[trigger] lists@[s])@ == turns_owned(
                    all,
                    roster.names@[s]@,
                    p as nat,
                ),
        decreases partitions - p,
    {
        let slot: usize = roster.slots[(p % n) as usize];
        let ghost before = lists@;
        lists[slot].push(p);
        proof {
            assert forall|s: int| 0 <= s < lists@.len() implies (#[trigger] lists@[s])@
                == turns_owned(all, roster.names@[s]@, (p + 1) as nat) by {
                assert(texts(roster.names@)[s] == roster.names@[s]@);
                assert(texts(roster.names@)[slot as int] == roster.names@[slot as int]@);
                assert(before[s]@ == turns_owned(all, roster.names@[s]@, p as nat));
                if s != slot {
                    assert(lists@[s] == before[s]);
                }
            }
        }
        p = p + 1;
    }
    let assignment = roster.object(&lists, Ghost(all), Ghost(parts));
    Ok(
        Json::object().with("assignment", assignment).with(
            "partitions",
            Json::Int(partitions as i128),
        ).with("consumers", Json::strings(&members)),
    )
}

// ---- what both assignors promise ----

/// An assignment has an entry for each member, which lists its partitions, and no
/// other entry.
pub proof fn law_assignment_entries(
    members: Seq<Seq<char>>,
    parts: spec_fn(Seq<char>) -> Seq<u64>,
    m: Seq<char>,
)
    ensures
        assignment_object(members, parts).get(m) == if members.contains(m) {
            Some(JsonView::numbers(parts(m)))
        } else {
            None
        },
{
    lemma_distinct_contains(members, m);
    lemma_lookup_mapped(distinct(members), |x: Seq<char>| JsonView::numbers(parts(x)), m);
    assert(distinct(members).map_values(|x: Seq<char>| (x, JsonView::numbers(parts(x))))
        =~= distinct(members).map_values(
        |x: Seq<char>| (x, (|y: Seq<char>| JsonView::numbers(parts(y)))(x)),
    ));
}

proof fn lemma_distinct_contains(list: Seq<Seq<char>>, m: Seq<char>)
    ensures
        distinct(list).contains(m) == list.contains(m),
    decreases list.len(),
{
    if list.len() > 0 {
        let init = list.drop_last();
        lemma_distinct_contains(init, m);
        assert(list =~= init.push(list.last()));
        if init.contains(m) {
            let i = choose|i: int| 0 <= i < init.len() && init[i] == m;
            assert(list[i] == m);
            let j = choose|j: int| 0 <= j < distinct(init).len() && distinct(init)[j] == m;
            assert(distinct(init).push(list.last())[j] == m);
        }
        if list.last() == m {
            if list.len() >= 2 && list[list.len() - 2] == list.last() {
                assert(init[init.len() - 1] == m);
            } else {
                assert(distinct(list).last() == m);
            }
        }
        if distinct(list).contains(m) && m != list.last() {
            let j = choose|j: int| 0 <= j < distinct(list).len() && distinct(list)[j] == m;
            assert(distinct(init)[j] == m);
        }
    }
}

proof fn lemma_lookup_mapped(
    keys: Seq<Seq<char>>,
    value: spec_fn(Seq<char>) -> JsonView,
    m: Seq<char>,
)
    ensures
        lookup(keys.map_values(|x: Seq<char>| (x, value(x))), m) == if keys.contains(m) {
            Some(value(m))
        } else {
            None
        },
    decreases keys.len(),
{
    let pairs = keys.map_values(|x: Seq<char>| (x, value(x)));
    if keys.len() > 0 {
        lemma_lookup_mapped(keys.skip(1), value, m);
        assert(pairs.skip(1) =~= keys.skip(1).map_values(|x: Seq<char>| (x, value(x))));
        if keys[0] != m {
            if keys.contains(m) {
                let i = choose|i: int| 0 <= i < keys.len() && keys[i] == m;
                assert(keys.skip(1)[i - 1] == m);
            }
            if keys.skip(1).contains(m) {
                let i = choose|i: int| 0 <= i < keys.skip(1).len() && keys.skip(1)[i] == m;
                assert(keys[i + 1] == m);
            }
        }
    }
}

/// Where no id occurs twice, the member in each place has the range of that place.
pub proof fn law_range_by_place(partitions: u64, members: Seq<Seq<char>>, i: int)
    requires
        members.no_duplicates(),
        0 <= i < members.len(),
    ensures
        range_owned(partitions, members, members[i], members.len()) == range_at(
            partitions,
            members.len(),
            i,
        ),
{
    lemma_range_found(partitions, members, i, members.len());
}

proof fn lemma_range_found(partitions: u64, members: Seq<Seq<char>>, i: int, k: nat)
    requires
        members.no_duplicates(),
        0 <= i < k <= members.len(),
    ensures
        range_owned(partitions, members, members[i], k) == range_at(partitions, members.len(), i),
    decreases k,
{
    if i != k - 1 {
        lemma_range_found(partitions, members, i, (k - 1) as nat);
    }
}

/// A range holds the partitions from its start to the start of the next.
proof fn lemma_range_contains(partitions: u64, n: nat, i: int, p: u64)
    requires
        0 <= i < n,
    ensures
        range_at(partitions, n, i).contains(p) <==> range_start(partitions, n, i) <= p
            < range_start(partitions, n, i + 1),
{
    lemma_ranges(partitions, n, i);
    let list = range_at(partitions, n, i);
    let start = range_start(partitions, n, i);
    if start <= p < range_start(partitions, n, i + 1) {
        assert(list[p - start] == p);
    }
    if list.contains(p) {
        let k = choose|k: int| 0 <= k < list.len() && list[k] == p;
        assert(list[k] == (start + k) as u64);
    }
}

proof fn lemma_starts_ascend(partitions: u64, n: nat, i: int, j: int)
    requires
        0 <= i <= j <= n,
        n > 0,
    ensures
        range_start(partitions, n, i) <= range_start(partitions, n, j),
    decreases j - i,
{
    if i < j {
        lemma_ranges(partitions, n, j - 1);
        lemma_starts_ascend(partitions, n, i, j - 1);
    }
}

/// The place whose range holds a partition, at or before the place `k`.
proof fn lemma_range_holder(partitions: u64, n: nat, k: int, p: u64) -> (i: int)
    requires
        0 < k <= n,
        p < range_start(partitions, n, k),
    ensures
        0 <= i < k,
        range_start(partitions, n, i) <= p < range_start(partitions, n, i + 1),
    decreases k,
{
    if range_start(partitions, n, k - 1) <= p {
        k - 1
    } else {
        lemma_ranges(partitions, n, 0);
        lemma_range_holder(partitions, n, k - 1, p)
    }
}

/// Where no id occurs twice, ranges give every partition to exactly one member,
/// and give out no other partition.
pub proof fn law_range_one_owner(partitions: u64, members: Seq<Seq<char>>, p: u64) -> (i: int)
    requires
        members.no_duplicates(),
        members.len() > 0,
    ensures
        p < partitions ==> 0 <= i < members.len() && range_owned(
            partitions,
            members,
            members[i],
            members.len(),
        ).contains(p),
        forall|j: int|
            0 <= j < members.len() && #[trigger] range_owned(
                partitions,
                members,
                members[j],
                members.len(),
            ).contains(p) ==> p < partitions && j == i,
{
    let n = members.len();
    lemma_ranges(partitions, n, 0);
    let i = if p < partitions {
        lemma_range_holder(partitions, n, n as int, p)
    } else {
        -1
    };
    if p < partitions {
        law_range_by_place(partitions, members, i);
        lemma_range_contains(partitions, n, i, p);
    }
    assert forall|j: int|
        0 <= j < n && #[trigger] range_owned(partitions, members, members[j], n).contains(
            p,
        ) implies p < partitions && j == i by {
        law_range_by_place(partitions, members, j);
        lemma_range_contains(partitions, n, j, p);
        lemma_ranges(partitions, n, j);
        if j < i {
            lemma_starts_ascend(partitions, n, j + 1, i);
        } else if i < j && p < partitions {
            lemma_starts_ascend(partitions, n, i + 1, j);
        }
    }
    i
}

/// Ranges differ by at most one partition in length, and the longer come first.
pub proof fn law_range_balanced(partitions: u64, n: nat, i: int, j: int)
    requires
        0 <= i <= j < n,
    ensures
        range_at(partitions, n, j).len() <= range_at(partitions, n, i).len() <= range_at(
            partitions,
            n,
            j,
        ).len() + 1,
{
    lemma_ranges(partitions, n, i);
    lemma_ranges(partitions, n, j);
}

/// In turn, a member has exactly the partitions whose turn is its own: every
/// partition has one owner, also where an id occurs twice.
pub proof fn law_turns_one_owner(members: Seq<Seq<char>>, m: Seq<char>, partitions: u64, p: u64)
    ensures
        turns_owned(members, m, partitions as nat).contains(p) <==> p < partitions && turn(
            members,
            p as int,
        ) == m,
{
    lemma_turns_contain(members, m, partitions as nat, p);
}

proof fn lemma_turns_contain(members: Seq<Seq<char>>, m: Seq<char>, k: nat, p: u64)
    requires
        k <= u64::MAX,
    ensures
        turns_owned(members, m, k).contains(p) <==> p < k && turn(members, p as int) == m,
    decreases k,
{
    if k > 0 {
        let before = turns_owned(members, m, (k - 1) as nat);
        lemma_turns_contain(members, m, (k - 1) as nat, p);
        let after = before.push((k - 1) as u64);
        if before.contains(p) {
            let i = choose|i: int| 0 <= i < before.len() && before[i] == p;
            assert(after[i] == p);
        }
        assert(after[before.len() as int] == (k - 1) as u64);
        if after.contains(p) && p != k - 1 {
            let i = choose|i: int| 0 <= i < after.len() && after[i] == p;
            assert(before[i] == p);
        }
    }
}

/// Where no id occurs twice, both assignors give the member in a place equally
/// many partitions.
pub proof fn law_assignors_count_alike(partitions: u64, members: Seq<Seq<char>>, i: int)
    requires
        members.no_duplicates(),
        0 <= i < members.len(),
    ensures
        turns_owned(members, members[i], partitions as nat).len() == range_owned(
            partitions,
            members,
            members[i],
            members.len(),
        ).len(),
{
    law_range_by_place(partitions, members, i);
    lemma_ranges(partitions, members.len(), i);
    lemma_turns_len(members, i, partitions);
}

proof fn lemma_turns_len(members: Seq<Seq<char>>, i: int, k: u64)
    requires
        members.no_duplicates(),
        0 <= i < members.len(),
    ensures
        turns_owned(members, members[i], k as nat).len() == range_length(k, members.len(), i),
    decreases k,
{
    let n = members.len() as int;
    if k == 0 {
        lemma_small_mod(0, n as nat);
        lemma_basic_div(0, n);
    } else {
        let before = (k - 1) as u64;
        let q = before as int / n;
        let r = before as int % n;
        lemma_turns_len(members, i, before);
        lemma_fundamental_div_mod(before as int, n);
        lemma_mod_bound(before as int, n);
        if r + 1 < n {
            assert(k as int == n * q + (r + 1));
            assert(n * q == q * n) by (nonlinear_arith);
            lemma_fundamental_div_mod_converse(k as int, n, q, r + 1);
        } else {
            assert(n * (q + 1) == n * q + n) by (nonlinear_arith);
            assert(n * (q + 1) == (q + 1) * n) by (nonlinear_arith);
            lemma_fundamental_div_mod_converse(k as int, n, q + 1, 0);
        }
        assert(turn(members, before as int) == members[r]);
    }
}

// ---- from what is asked to what is answered ----

/// The ids asked for: those under `consumers`, or under `members` where there is no
/// `consumers`.
pub open spec fn asks_for(opts: JsonView, partitions: int, ids: Seq<Seq<char>>) -> bool {
    &&& opts.get("partitions"@) == Some(JsonView::Int(partitions))
    &&& match opts.get("consumers"@) {
        Some(v) => v == JsonView::strings(ids),
        None => opts.get("members"@) == Some(JsonView::strings(ids)),
    }
}

proof fn lemma_inputs(opts: JsonView, partitions: int, ids: Seq<Seq<char>>)
    requires
        asks_for(opts, partitions, ids),
        0 < partitions <= u64::MAX,
        ids.len() > 0,
    ensures
        assignment_inputs(opts) == Ok::<(u64, Seq<Seq<char>>), Seq<char>>(
            (partitions as u64, sorted_texts(ids)),
        ),
{
    let items = JsonView::strings(ids)->Array_0;
    assert(asked_members(opts) == Some(items));
    assert(items.map_values(|v: JsonView| v.as_str().unwrap()) =~= ids);
}

/// Ranges are answered with the count of partitions and with the ids in ascending order.
/// The member in a place of that order, behind which it does not stand again, gets
/// partitions one after the other: as many as go evenly into the count, and one more where
/// its place is below the remainder; from where those before it end.
pub proof fn law_ranges_as_asked(opts: JsonView, partitions: int, ids: Seq<Seq<char>>, i: int)
    requires
        asks_for(opts, partitions, ids),
        0 < partitions <= u64::MAX,
        ids.len() > 0,
    ensures
        ({
            let members = sorted_texts(ids);
            let n = ids.len() as int;
            let even = partitions / n;
            let over = partitions % n;
            let start = even * i + if i < over {
                i
            } else {
                over
            };
            let length = even + if i < over {
                1int
            } else {
                0
            };
            range_assignment_reply(opts) matches Ok(reply) && reply.get("partitions"@) == Some(
                JsonView::Int(partitions),
            ) && reply.get("consumers"@) == Some(JsonView::strings(members)) && (0 <= i < n
                && (forall|j: int| i < j < n ==> #[trigger] members[j] != members[i])
                ==> match reply.get("assignment"@) {
                Some(assignment) => assignment.get(members[i]) == Some(
                    JsonView::Array(Seq::new(length as nat, |k: int| JsonView::Int(start + k))),
                ),
                None => false,
            })
        }),
{
    broadcast use group_members;

    reveal_strlit("assignment");
    reveal_strlit("partitions");
    reveal_strlit("consumers");
    assert("assignment"@.len() == 10
        && "partitions"@.len() == 10
        && "consumers"@.len() == 9);
    assert("assignment"@[0] == 'a');
    assert("partitions"@[0] == 'p');
    lemma_inputs(opts, partitions, ids);
    law_sorted(ids);
    let members = sorted_texts(ids);
    let count = partitions as u64;
    let parts = |m: Seq<char>| range_owned(count, members, m, members.len());
    if 0 <= i < ids.len() && (forall|j: int|
        i < j < ids.len() ==> #[trigger] members[j] != members[i]) {
        law_assignment_entries(members, parts, members[i]);
        assert(members.contains(members[i]));
        lemma_last_range(count, members, i, members.len());
        lemma_ranges(count, members.len(), i);
        let start = range_start(count, members.len(), i);
        let length = range_length(count, members.len(), i);
        assert(JsonView::numbers(range_at(count, members.len(), i))->Array_0 =~= Seq::new(
            length as nat,
            |k: int| JsonView::Int(start + k),
        ));
    }
}

proof fn lemma_last_range(partitions: u64, members: Seq<Seq<char>>, i: int, k: nat)
    requires
        0 <= i < k <= members.len(),
        forall|j: int| i < j < members.len() ==> #[trigger] members[j] != members[i],
    ensures
        range_owned(partitions, members, members[i], k) == range_at(partitions, members.len(), i),
    decreases k,
{
    if i != k - 1 {
        assert(members[k - 1] != members[i]);
        lemma_last_range(partitions, members, i, (k - 1) as nat);
    }
}

/// In turn is answered with the count of partitions and with the ids in ascending order. A
/// member gets, in ascending order, exactly the partitions at whose place in that order it
/// stands, when the order is gone through again and again.
pub proof fn law_turns_as_asked(
    opts: JsonView,
    partitions: int,
    ids: Seq<Seq<char>>,
    m: Seq<char>,
    p: u64,
)
    requires
        asks_for(opts, partitions, ids),
        0 < partitions <= u64::MAX,
        ids.len() > 0,
        ids.contains(m),
    ensures
        ({
            let members = sorted_texts(ids);
            roundrobin_assignment_reply(opts) matches Ok(reply) && reply.get("partitions"@) == Some(
                JsonView::Int(partitions),
            ) && reply.get("consumers"@) == Some(JsonView::strings(members))
                && match reply.get("assignment"@) {
                Some(assignment) => match assignment.get(m) {
                    Some(JsonView::Array(list)) => {
                        &&& list.contains(JsonView::Int(p as int)) <==> p < partitions
                            && members[p as int % ids.len() as int] == m
                        &&& forall|j: int| 0 <= j < list.len() ==> (#[trigger] list[j]) is Int
                        &&& forall|j: int, k: int|
                            0 <= j < k < list.len() ==> (#[trigger] list[j])->Int_0 < (
                            #[trigger] list[k])->Int_0
                    },
                    _ => false,
                },
                None => false,
            }
        }),
{
    broadcast use group_members;

    reveal_strlit("assignment");
    reveal_strlit("partitions");
    reveal_strlit("consumers");
    assert("assignment"@.len() == 10
        && "partitions"@.len() == 10
        && "consumers"@.len() == 9);
    assert("assignment"@[0] == 'a');
    assert("partitions"@[0] == 'p');
    lemma_inputs(opts, partitions, ids);
    law_sorted(ids);
    let members = sorted_texts(ids);
    let count = partitions as u64;
    let parts = |x: Seq<char>| turns_owned(members, x, count as nat);
    lemma_same_ids(ids, m);
    law_assignment_entries(members, parts, m);
    law_turns_one_owner(members, m, count, p);
    let owned = turns_owned(members, m, count as nat);
    let list = JsonView::numbers(owned)->Array_0;
    assert forall|j: int, k: int| 0 <= j < k < list.len() implies (#[trigger] list[j])->Int_0 < (
    #[trigger] list[k])->Int_0 by {
        lemma_turns_ascend(members, m, count as nat, j, k);
    }
    if owned.contains(p) {
        let j = choose|j: int| 0 <= j < owned.len() && owned[j] == p;
        assert(list[j] == JsonView::Int(p as int));
    }
    if list.contains(JsonView::Int(p as int)) {
        let j = choose|j: int| 0 <= j < list.len() && list[j] == JsonView::Int(p as int);
        assert(owned[j] == p);
    }
}

proof fn lemma_turns_ascend(members: Seq<Seq<char>>, m: Seq<char>, n: nat, j: int, k: int)
    requires
        n <= u64::MAX,
        0 <= j < k < turns_owned(members, m, n).len(),
    ensures
        turns_owned(members, m, n)[j] < turns_owned(members, m, n)[k] < n,
    decreases n,
{
    if n > 0 {
        let before = turns_owned(members, m, (n - 1) as nat);
        if k < before.len() {
            lemma_turns_ascend(members, m, (n - 1) as nat, j, k);
        } else {
            lemma_turns_contain(members, m, (n - 1) as nat, before[j]);
            assert(before.contains(before[j]));
        }
    }
}

/// The ids in ascending order are the ids.
proof fn lemma_same_ids(ids: Seq<Seq<char>>, m: Seq<char>)
    ensures
        sorted_texts(ids).contains(m) <==> ids.contains(m),
{
    law_sorted(ids);
    ids.to_multiset_ensures();
    sorted_texts(ids).to_multiset_ensures();
    assert(sorted_texts(ids).to_multiset().contains(m) == ids.to_multiset().contains(m));
}

/// Both kinds of assignment have an entry exactly for each id.
pub proof fn law_only_members_get_partitions(
    opts: JsonView,
    partitions: int,
    ids: Seq<Seq<char>>,
    m: Seq<char>,
)
    requires
        asks_for(opts, partitions, ids),
        0 < partitions <= u64::MAX,
        ids.len() > 0,
    ensures
        range_assignment_reply(opts)->Ok_0.get("assignment"@) matches Some(assignment) && (
        assignment.get(m) is Some <==> ids.contains(m)),
        roundrobin_assignment_reply(opts)->Ok_0.get("assignment"@) matches Some(assignment) && (
        assignment.get(m) is Some <==> ids.contains(m)),
{
    broadcast use group_members;

    reveal_strlit("assignment");
    reveal_strlit("partitions");
    reveal_strlit("consumers");
    assert("assignment"@.len() == 10
        && "partitions"@.len() == 10
        && "consumers"@.len() == 9);
    assert("assignment"@[0] == 'a');
    assert("partitions"@[0] == 'p');
    lemma_inputs(opts, partitions, ids);
    let members = sorted_texts(ids);
    let count = partitions as u64;
    lemma_same_ids(ids, m);
    law_assignment_entries(
        members,
        |x: Seq<char>| range_owned(count, members, x, members.len()),
        m,
    );
    law_assignment_entries(members, |x: Seq<char>| turns_owned(members, x, count as nat), m);
}

/// Why an assignment is refused, if it is.
pub open spec fn assignment_refusal(
    partitions: Option<JsonView>,
    list: Option<JsonView>,
) -> Option<Seq<char>> {
    match partitions {
        Some(JsonView::Int(n)) if 0 <= n <= u64::MAX => if n == 0 {
            Some("partitions must be > 0"@)
        } else {
            match list {
                Some(JsonView::Array(items)) => if exists|i: int|
                    0 <= i < items.len() && !((#[trigger] items[i]) is Str) {
                    Some("consumer id must be a string"@)
                } else if items.len() == 0 {
                    Some("consumers is empty"@)
                } else {
                    None
                },
                _ => Some("missing consumers (array of member ids)"@),
            }
        },
        _ => Some("missing partitions (count)"@),
    }
}

/// An assignment is refused where no count of partitions is given, or zero, where no list
/// of members is, where one of them is no text, and where there is none; in that order.
pub proof fn law_assignment_refused(opts: JsonView)
    ensures
        ({
            let refusal = assignment_refusal(
                opts.get("partitions"@),
                match opts.get("consumers"@) {
                    Some(v) => Some(v),
                    None => opts.get("members"@),
                },
            );
            match (range_assignment_reply(opts), roundrobin_assignment_reply(opts)) {
                (Err(a), Err(b)) => refusal == Some(a) && refusal == Some(b),
                (Ok(_), Ok(_)) => refusal is None,
                _ => false,
            }
        }),
{
    let list = match opts.get("consumers"@) {
        Some(v) => Some(v),
        None => opts.get("members"@),
    };
    let refusal = assignment_refusal(opts.get("partitions"@), list);
    if let Some(JsonView::Array(items)) = list {
        assert(asked_members(opts) == Some(items));
        if exists|i: int| 0 <= i < items.len() && !((#[trigger] items[i]) is Str) {
            let i = choose|i: int| 0 <= i < items.len() && !((#[trigger] items[i]) is Str);
            assert(items[i].as_str() is None);
        } else {
            assert forall|i: int| 0 <= i < items.len() implies (
            #[trigger] items[i]).as_str() is Some by {
                assert(items[i] is Str);
            }
        }
    } else {
        assert(asked_members(opts) is None);
    }
    match assignment_inputs(opts) {
        Ok(_) => {
            assert(refusal is None);
        },
        Err(m) => {
            assert(refusal == Some(m));
        },
    }
}

/// An assignment lists its members in ascending order, each once.
pub proof fn law_assignment_in_order(
    ids: Seq<Seq<char>>,
    parts: spec_fn(Seq<char>) -> Seq<u64>,
    i: int,
    j: int,
)
    ensures
        assignment_object(sorted_texts(ids), parts) matches JsonView::Object(entries) && (0 <= i < j
            < entries.len() ==> text_le(entries[i].0, entries[j].0) && entries[i].0
            != entries[j].0),
{
    law_sorted(ids);
    let members = sorted_texts(ids);
    if 0 <= i < j < distinct(members).len() {
        lemma_distinct_ascends(members, i, j);
    }
}

proof fn lemma_distinct_ascends(list: Seq<Seq<char>>, i: int, j: int)
    requires
        ascending(list),
        0 <= i < j < distinct(list).len(),
    ensures
        text_le(distinct(list)[i], distinct(list)[j]),
        distinct(list)[i] != distinct(list)[j],
    decreases list.len(),
{
    law_text_order();
    let le = |a: Seq<char>, b: Seq<char>| text_le(a, b);
    let init = list.drop_last();
    let before = distinct(init);
    assert(ascending(init)) by {
        assert forall|x: int, y: int| 0 <= x <= y < init.len() implies text_le(
            #[trigger] init[x],
            #[trigger] init[y],
        ) by {
            assert(text_le(list[x], list[y]));
        }
    }
    if j < before.len() {
        lemma_distinct_ascends(init, i, j);
    } else {
        let a = before[i];
        lemma_distinct_contains(init, a);
        assert(before.contains(a));
        let x = choose|x: int| 0 <= x < init.len() && init[x] == a;
        assert(text_le(list[x], list[list.len() - 2]));
        assert(text_le(list[list.len() - 2], list[list.len() - 1]));
        assert(text_le(list[x], list[list.len() - 1]));
        if a == list.last() {
            assert(le(list[list.len() - 2], list.last()) && le(list.last(), list[list.len() - 2]));
        }
    }
}

} // verus!
