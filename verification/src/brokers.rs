//! Broker lists: which brokers to ask, and how a list of them is written.

use vstd::prelude::*;
use vstd::string::*;

use crate::error::{agrees, OpError};
use crate::json::{group_members, lookup, views, Json, JsonView};
use crate::number::{
    decimal, decimal_digit, law_unsigned_round_trip, lemma_decimal_reads_back, parse_u32,
    push_decimal, unsigned_value,
};
use crate::text::{
    comma_items, concat3, join, joined, law_comma_items, law_comma_items_joined, law_split_last,
    lemma_last_index, opt_text, rsplit_once, split_commas, split_last, texts, tight, white_space,
};

verus! {

/// The brokers to ask: those in the options, or else those in the environment, or
/// else the local one. The text is handed on as it stands.
pub open spec fn chosen_brokers(opts: JsonView, env: Option<Seq<char>>) -> Seq<char> {
    match (opts.text("brokers"@), env) {
        (Some(s), _) => s,
        (None, Some(s)) => s,
        (None, None) => "127.0.0.1:9092"@,
    }
}

/// Picks the brokers to ask. `env` is the value of `KAFKA_BROKERS`, where it is
/// set.
pub fn brokers_from_opts(opts: &Json, env: Option<String>) -> (r: String)
    ensures
        r@ == chosen_brokers(opts@, opt_text(env)),
{
    match opts.text("brokers") {
        Some(s) => s.to_owned(),
        None => match env {
            Some(s) => s,
            None => "127.0.0.1:9092".to_owned(),
        },
    }
}

// ---- reading a list ----

/// A broker: its host, and its port where one is given.
pub struct BrokerView {
    pub host: Seq<char>,
    pub port: Option<u32>,
}

/// The broker that an item names: `host:port`, or a host alone where no port
/// number stands behind the last colon.
pub open spec fn broker_of(item: Seq<char>) -> BrokerView {
    match split_last(item, ':') {
        Some((host, port)) => match unsigned_value(port, u32::MAX as nat) {
            Some(n) => BrokerView { host, port: Some(n as u32) },
            None => BrokerView { host: item, port: None },
        },
        None => BrokerView { host: item, port: None },
    }
}

/// The brokers that a list names.
pub open spec fn brokers_of(s: Seq<char>) -> Seq<BrokerView> {
    comma_items(s).map_values(|item: Seq<char>| broker_of(item))
}

impl BrokerView {
    /// The broker as a JSON object.
    pub open spec fn json(self) -> JsonView {
        JsonView::object().with("host"@, JsonView::Str(self.host)).with(
            "port"@,
            match self.port {
                Some(port) => JsonView::Int(port as int),
                None => JsonView::Null,
            },
        )
    }

    /// The broker as an item of a list.
    pub open spec fn text(self) -> Seq<char> {
        match self.port {
            Some(port) => self.host + ":"@ + decimal(port as nat),
            None => self.host,
        }
    }
}

/// A list of brokers as a JSON array.
pub open spec fn brokers_json(list: Seq<BrokerView>) -> JsonView {
    JsonView::Array(list.map_values(|b: BrokerView| b.json()))
}

/// The list asked about: `brokers`, or `bootstrap` where there is no member
/// `brokers`.
pub open spec fn asked_brokers(opts: JsonView) -> Option<Seq<char>> {
    if opts.get("brokers"@) is Some {
        opts.text("brokers"@)
    } else {
        opts.text("bootstrap"@)
    }
}

/// The answer for a list: the brokers in it and how many they are.
pub open spec fn parse_brokers_reply(opts: JsonView) -> Result<JsonView, Seq<char>> {
    match asked_brokers(opts) {
        None => Err("missing brokers"@),
        Some(s) => if brokers_of(s).len() == 0 {
            Err("no brokers in `"@ + s + "`"@)
        } else {
            Ok(
                JsonView::object().with("brokers"@, brokers_json(brokers_of(s))).with(
                    "count"@,
                    JsonView::Int(brokers_of(s).len() as int),
                ),
            )
        },
    }
}

fn broker_json(item: &str) -> (r: Json)
    ensures
        r@ == broker_of(item@).json(),
{
    if let Some((host, port)) = rsplit_once(item, ':') {
        if let Some(n) = parse_u32(port.as_str()) {
            return Json::object().with("host", Json::Str(host)).with("port", Json::Int(n as i128));
        }
    }
    Json::object().with("host", Json::str(item)).with("port", Json::Null)
}

/// Reads a list of brokers.
pub fn op_parse_brokers(opts: Json) -> (r: Result<Json, OpError>)
    ensures
        agrees(r, parse_brokers_reply(opts@)),
{
    let asked = match opts.get("brokers") {
        Some(v) => v.as_str(),
        None => opts.text("bootstrap"),
    };
    let s = match asked {
        Some(s) => s,
        None => {
            return Err(OpError::new("missing brokers"));
        },
    };
    let items = split_commas(s);
    let mut brokers: Vec<Json> = Vec::new();
    let mut i: usize = 0;
    while i < items.len()
        invariant
            i <= items@.len(),
            texts(items@) == comma_items(s@),
            brokers@.len() == i,
            forall|j: int| 0 <= j < i ==> (#[trigger] brokers@[j])@ == brokers_of(s@)[j].json(),
        decreases items@.len() - i,
    {
        assert(texts(items@)[i as int] == items@[i as int]@);
        brokers.push(broker_json(items[i].as_str()));
        i = i + 1;
    }
    let count: usize = brokers.len();
    assert(brokers_of(s@).len() == texts(items@).len());
    if count == 0 {
        return Err(OpError { message: concat3("no brokers in `", s, "`") });
    }
    assert(views(brokers@) =~= brokers_of(s@).map_values(|b: BrokerView| b.json()));
    Ok(
        Json::object().with("brokers", Json::array(brokers)).with(
            "count",
            Json::Int(count as i128),
        ),
    )
}

// ---- writing a list ----

/// An entry of a list as an item: a string as it stands, an object by its host
/// and its port. An object needs a host that is not empty.
pub open spec fn entry_text(entry: JsonView) -> Option<Seq<char>> {
    match (entry.as_str(), entry.text("host"@)) {
        (Some(s), _) => Some(s),
        (None, None) => None,
        (None, Some(host)) => if host.len() == 0 {
            None
        } else {
            match entry.unsigned("port"@) {
                Some(port) => Some(host + ":"@ + decimal(port as nat)),
                None => Some(host),
            }
        },
    }
}

/// The answer for a list of entries: the list as one text.
pub open spec fn build_brokers_reply(opts: JsonView) -> Result<JsonView, Seq<char>> {
    match opts.items("brokers"@) {
        None => Err("missing brokers (array)"@),
        Some(entries) => if exists|i: int|
            0 <= i < entries.len() && entry_text(#[trigger] entries[i]) is None {
            Err("broker entry missing host"@)
        } else if entries.len() == 0 {
            Err("broker list is empty"@)
        } else {
            Ok(
                JsonView::object().with(
                    "bootstrap"@,
                    JsonView::Str(
                        joined(entries.map_values(|e: JsonView| entry_text(e).unwrap()), ","@),
                    ),
                ),
            )
        },
    }
}

fn entry_item(entry: &Json) -> (r: Option<String>)
    ensures
        match r {
            Some(s) => entry_text(entry@) == Some(s@),
            None => entry_text(entry@) is None,
        },
{
    if let Some(s) = entry.as_str() {
        return Some(s.to_owned());
    }
    match entry.text("host") {
        None => None,
        Some(host) => {
            if host.unicode_len() == 0 {
                return None;
            }
            let mut item = host.to_owned();
            if let Some(port) = entry.unsigned("port") {
                item.append(":");
                push_decimal(&mut item, port);
            }
            Some(item)
        },
    }
}

/// Writes a list of brokers.
pub fn op_build_brokers(opts: Json) -> (r: Result<Json, OpError>)
    ensures
        agrees(r, build_brokers_reply(opts@)),
{
    let entries = match opts.items("brokers") {
        Some(entries) => entries,
        None => {
            return Err(OpError::new("missing brokers (array)"));
        },
    };
    let ghost all = views(entries@);
    let mut items: Vec<String> = Vec::new();
    let mut i: usize = 0;
    while i < entries.len()
        invariant
            i <= entries@.len(),
            all == views(entries@),
            opts@.items("brokers"@) == Some(all),
            items@.len() == i,
            forall|j: int| 0 <= j < i ==> entry_text(#[trigger] all[j]) == Some(items@[j]@),
        decreases entries@.len() - i,
    {
        assert(all[i as int] == entries@[i as int]@);
        match entry_item(&entries[i]) {
            Some(item) => {
                items.push(item);
            },
            None => {
                return Err(OpError::new("broker entry missing host"));
            },
        }
        i = i + 1;
    }
    if items.len() == 0 {
        return Err(OpError::new("broker list is empty"));
    }
    assert(texts(items@) =~= all.map_values(|e: JsonView| entry_text(e).unwrap()));
    Ok(Json::object().with("bootstrap", Json::Str(join(&items, ","))))
}

// ---- reading and writing ----

/// A broker that a list can name: the host is not empty, does not begin with
/// white space and holds no comma; without a port, the host does not end in white
/// space either, and does not itself read as a host with a port.
pub open spec fn nameable(b: BrokerView) -> bool {
    &&& b.host.len() > 0
    &&& !white_space(b.host[0])
    &&& !b.host.contains(',')
    &&& b.port is None ==> !white_space(b.host.last()) && broker_of(b.host) == b
}

/// The item for a broker names that broker, and can stand in a list.
proof fn lemma_item(b: BrokerView)
    requires
        nameable(b),
    ensures
        broker_of(b.text()) == b,
        b.port matches Some(port) ==> split_last(b.text(), ':') == Some(
            (b.host, decimal(port as nat)),
        ),
        b.text().len() > 0,
        tight(b.text()),
        !b.text().contains(','),
{
    reveal_strlit(":");
    if let Some(port) = b.port {
        let digits = decimal(port as nat);
        let item = b.text();
        lemma_decimal_reads_back(port as nat);
        law_unsigned_round_trip(port as nat, u32::MAX as nat);
        let at = b.host.len() as int;
        assert forall|j: int| at < j < item.len() implies decimal_digit(#[trigger] item[j]) by {
            assert(item[j] == digits[j - at - 1]);
        }
        lemma_last_index(item, ':', at);
        assert(item.take(at) =~= b.host);
        assert(item.skip(at + 1) =~= digits);
        assert(decimal_digit(item.last()));
        if item.contains(',') {
            let j = choose|j: int| 0 <= j < item.len() && item[j] == ',';
            if j < at {
                assert(b.host[j] == ',');
            }
        }
    }
}

/// Reading a written list gives back the brokers that it was written from.
pub proof fn law_brokers_round_trip(list: Seq<BrokerView>)
    requires
        list.len() > 0,
        forall|i: int| 0 <= i < list.len() ==> nameable(#[trigger] list[i]),
    ensures
        brokers_of(joined(list.map_values(|b: BrokerView| b.text()), ","@)) == list,
{
    reveal_strlit(",");
    let items = list.map_values(|b: BrokerView| b.text());
    assert(","@ =~= seq![',']);
    assert forall|i: int| 0 <= i < items.len() implies (#[trigger] items[i]).len() > 0 && tight(
        items[i],
    ) && !items[i].contains(',') && broker_of(items[i]) == list[i] by {
        assert(nameable(list[i]));
        lemma_item(list[i]);
    }
    law_comma_items_joined(items);
    assert(items.map_values(|item: Seq<char>| broker_of(item)) =~= list);
}

/// The broker that an item names can be named, but for one without a host.
proof fn lemma_item_nameable(item: Seq<char>)
    requires
        item.len() > 0,
        tight(item),
        !item.contains(','),
        broker_of(item).host.len() > 0,
    ensures
        nameable(broker_of(item)),
{
    let b = broker_of(item);
    item.index_of_last_ensures(':');
    assert(b.host[0] == item[0]);
    if b.host.contains(',') {
        let j = choose|j: int| 0 <= j < b.host.len() && b.host[j] == ',';
        assert(item[j] == ',');
    }
}

/// Writing the entries for a list of brokers, as objects, writes each broker's
/// item.
proof fn lemma_entry(b: BrokerView)
    requires
        b.host.len() > 0,
    ensures
        entry_text(b.json()) == Some(b.text()),
{
    reveal_strlit("host");
    reveal_strlit("port");
    reveal_with_fuel(lookup, 3);
    assert("host"@[0] == 'h');
    assert("port"@[0] == 'p');
    let members = b.json()->Object_0;
    assert(members[0].0 == "host"@);
    assert(members.skip(1)[0] == members[1]);
}

/// What is asked of [`op_build_brokers`] to write a list.
pub open spec fn build_request(list: Seq<BrokerView>) -> JsonView {
    JsonView::object().with("brokers"@, brokers_json(list))
}

/// What is asked of [`op_parse_brokers`] to read a list.
pub open spec fn parse_request(s: Seq<char>) -> JsonView {
    JsonView::object().with("brokers"@, JsonView::Str(s))
}

/// Writing brokers that all have a host succeeds, with the items of the brokers.
proof fn lemma_build(list: Seq<BrokerView>)
    requires
        list.len() > 0,
        forall|i: int| 0 <= i < list.len() ==> (#[trigger] list[i]).host.len() > 0,
    ensures
        build_brokers_reply(build_request(list)) == Ok::<JsonView, Seq<char>>(
            JsonView::object().with(
                "bootstrap"@,
                JsonView::Str(joined(list.map_values(|b: BrokerView| b.text()), ","@)),
            ),
        ),
{
    let entries = list.map_values(|b: BrokerView| b.json());
    assert(build_request(list)->Object_0[0].0 == "brokers"@);
    assert(build_request(list).items("brokers"@) == Some(entries));
    assert forall|i: int| 0 <= i < entries.len() implies entry_text(#[trigger] entries[i]) == Some(
        list[i].text(),
    ) by {
        lemma_entry(list[i]);
    }
    assert(entries.map_values(|e: JsonView| entry_text(e).unwrap()) =~= list.map_values(
        |b: BrokerView| b.text(),
    ));
}

/// What [`op_build_brokers`] answers for a list of brokers, [`op_parse_brokers`]
/// reads back as that list.
pub proof fn law_parse_undoes_build(list: Seq<BrokerView>)
    requires
        list.len() > 0,
        forall|i: int| 0 <= i < list.len() ==> nameable(#[trigger] list[i]),
    ensures
        build_brokers_reply(build_request(list)) matches Ok(built) && built.text(
            "bootstrap"@,
        ) matches Some(s) && parse_brokers_reply(parse_request(s)) == Ok::<JsonView, Seq<char>>(
            JsonView::object().with("brokers"@, brokers_json(list)).with(
                "count"@,
                JsonView::Int(list.len() as int),
            ),
        ),
{
    assert forall|i: int| 0 <= i < list.len() implies (#[trigger] list[i]).host.len() > 0 by {
        assert(nameable(list[i]));
    }
    lemma_build(list);
    law_brokers_round_trip(list);
    let s = joined(list.map_values(|b: BrokerView| b.text()), ","@);
    let built = build_brokers_reply(build_request(list))->Ok_0;
    assert(built->Object_0[0].0 == "bootstrap"@);
    assert(built.text("bootstrap"@) == Some(s));
    assert(parse_request(s)->Object_0[0].0 == "brokers"@);
    assert(asked_brokers(parse_request(s)) == Some(s));
}

/// What [`op_parse_brokers`] reads in a text, [`op_build_brokers`] writes as a text
/// in which the same is read, where no broker's host is empty.
pub proof fn law_build_undoes_parse(s: Seq<char>)
    requires
        brokers_of(s).len() > 0,
        forall|i: int| 0 <= i < brokers_of(s).len() ==> (#[trigger] brokers_of(s)[i]).host.len() > 0,
    ensures
        parse_brokers_reply(parse_request(s)) matches Ok(read) && build_brokers_reply(
            JsonView::object().with("brokers"@, read.get("brokers"@).unwrap()),
        ) matches Ok(built) && built.text("bootstrap"@) matches Some(t) && parse_brokers_reply(
            parse_request(t),
        ) == parse_brokers_reply(parse_request(s)),
{
    let list = brokers_of(s);
    assert forall|i: int| 0 <= i < list.len() implies nameable(#[trigger] list[i]) by {
        law_comma_items(s, i);
        assert(brokers_of(s)[i].host.len() > 0);
        lemma_item_nameable(comma_items(s)[i]);
    }
    law_parse_undoes_build(list);
    assert(parse_request(s)->Object_0[0].0 == "brokers"@);
    assert(asked_brokers(parse_request(s)) == Some(s));
    let read = parse_brokers_reply(parse_request(s))->Ok_0;
    assert(read->Object_0[0].0 == "brokers"@);
    assert(read.get("brokers"@) == Some(brokers_json(list)));
}

/// An item in the plain form: a host that is not empty, alone or with a port number
/// behind the last colon, which is written without a sign or zeros in front.
pub open spec fn plain_item(item: Seq<char>) -> bool {
    &&& item.len() > 0
    &&& tight(item)
    &&& !item.contains(',')
    &&& broker_of(item).host.len() > 0
    &&& match split_last(item, ':') {
        Some((_, port)) => match unsigned_value(port, u32::MAX as nat) {
            Some(n) => port == decimal(n),
            None => true,
        },
        None => true,
    }
}

/// A plain item is the text of the broker that it names.
proof fn lemma_plain_item(item: Seq<char>)
    requires
        plain_item(item),
    ensures
        broker_of(item).text() == item,
{
    reveal_strlit(":");
    item.index_of_last_ensures(':');
    if let Some((host, port)) = split_last(item, ':') {
        if let Some(n) = unsigned_value(port, u32::MAX as nat) {
            assert(n <= u32::MAX);
            assert(item =~= host + ":"@ + port);
        }
    }
}

/// A text of plain items with commas between them, read by [`op_parse_brokers`], is
/// written again by [`op_build_brokers`] as it was.
pub proof fn law_plain_text_unchanged(items: Seq<Seq<char>>)
    requires
        items.len() > 0,
        forall|i: int| 0 <= i < items.len() ==> plain_item(#[trigger] items[i]),
    ensures
        ({
            let s = joined(items, ","@);
            parse_brokers_reply(parse_request(s)) matches Ok(read) && build_brokers_reply(
                JsonView::object().with("brokers"@, read.get("brokers"@).unwrap()),
            ) == Ok::<JsonView, Seq<char>>(
                JsonView::object().with("bootstrap"@, JsonView::Str(s)),
            )
        }),
{
    reveal_strlit(",");
    assert(","@ =~= seq![',']);
    let s = joined(items, ","@);
    assert forall|i: int| 0 <= i < items.len() implies (#[trigger] items[i]).len() > 0 && tight(
        items[i],
    ) && !items[i].contains(',') by {
        assert(plain_item(items[i]));
    }
    law_comma_items_joined(items);
    let list = brokers_of(s);
    assert forall|i: int| 0 <= i < list.len() implies (#[trigger] list[i]).host.len() > 0
        && list[i].text() == items[i] by {
        assert(plain_item(items[i]));
        lemma_plain_item(items[i]);
    }
    assert(list.map_values(|b: BrokerView| b.text()) =~= items);
    lemma_build(list);
    assert(parse_request(s)->Object_0[0].0 == "brokers"@);
    assert(asked_brokers(parse_request(s)) == Some(s));
    let read = parse_brokers_reply(parse_request(s))->Ok_0;
    assert(read->Object_0[0].0 == "brokers"@);
    assert(read.get("brokers"@) == Some(brokers_json(list)));
}

/// A host is a plain item, and so is a host with a port behind a colon, if the host
/// could stand in a list: it is not empty, holds no comma and no colon, and has no
/// white space around it.
pub proof fn law_hosts_are_plain(host: Seq<char>, port: Option<u32>)
    requires
        host.len() > 0,
        tight(host),
        !host.contains(','),
        !host.contains(':'),
    ensures
        plain_item((BrokerView { host, port }).text()),
        broker_of((BrokerView { host, port }).text()) == (BrokerView { host, port }),
{
    let b = BrokerView { host, port };
    host.index_of_last_ensures(':');
    assert(nameable(b));
    lemma_item(b);
    if let Some(p) = port {
        law_unsigned_round_trip(p as nat, u32::MAX as nat);
    }
}

/// The brokers to ask are those under `brokers`, as they stand; or else those of the
/// environment, as they stand; or else the local one.
pub proof fn law_brokers_chosen(opts: JsonView, env: Option<Seq<char>>)
    ensures
        match (opts.get("brokers"@), env) {
            (Some(JsonView::Str(s)), _) => chosen_brokers(opts, env) == s,
            (_, Some(s)) => chosen_brokers(opts, env) == s,
            (_, None) => chosen_brokers(opts, env) == "127.0.0.1:9092"@,
        },
{
}

/// An item names a host and a port exactly where a number of 32 bits is behind its last
/// colon; else it is a host alone, all of it.
pub proof fn law_broker_read(item: Seq<char>)
    ensures
        match broker_of(item).port {
            Some(port) => exists|digits: Seq<char>|
                #![trigger unsigned_value(digits, u32::MAX as nat)]
                item == broker_of(item).host + seq![':'] + digits && !digits.contains(':')
                    && unsigned_value(digits, u32::MAX as nat) == Some(port as nat),
            None => broker_of(item).host == item && forall|host: Seq<char>, digits: Seq<char>|
                #![trigger host + seq![':'] + digits]
                item == host + seq![':'] + digits && !digits.contains(':') ==> unsigned_value(
                    digits,
                    u32::MAX as nat,
                ) is None,
        },
{
    law_split_last(item, ':');
    if broker_of(item).port is None {
        assert forall|host: Seq<char>, digits: Seq<char>|
            #![trigger host + seq![':'] + digits]
            item == host + seq![':'] + digits && !digits.contains(':') implies unsigned_value(
            digits,
            u32::MAX as nat,
        ) is None by {
            let at = host.len() as int;
            assert(item[at] == ':');
            assert forall|j: int| at < j < item.len() implies item[j] != ':' by {
                assert(item[j] == digits[j - at - 1]);
                assert(digits.contains(digits[j - at - 1]));
            }
            lemma_last_index(item, ':', at);
            assert(item.skip(at + 1) =~= digits);
        }
    }
}

/// A list is read from `brokers`, or from `bootstrap` where there is no `brokers`. It is
/// answered with the brokers in it, each by its host and its port, null where it has none,
/// in their order, and with how many they are. Without a text, or with no broker in it, it
/// is refused.
pub proof fn law_brokers_parsed(opts: JsonView, s: Seq<char>, i: int)
    requires
        match opts.get("brokers"@) {
            Some(v) => v == JsonView::Str(s),
            None => opts.get("bootstrap"@) == Some(JsonView::Str(s)),
        },
    ensures
        ({
            let items = comma_items(s);
            if items.len() == 0 {
                parse_brokers_reply(opts) == Err::<JsonView, Seq<char>>(
                    "no brokers in `"@ + s + "`"@,
                )
            } else {
                parse_brokers_reply(opts) matches Ok(reply) && reply.get("count"@) == Some(
                    JsonView::Int(items.len() as int),
                ) && match reply.get("brokers"@) {
                    Some(JsonView::Array(list)) => list.len() == items.len() && (0 <= i
                        < list.len() ==> list[i].get("host"@) == Some(
                        JsonView::Str(broker_of(items[i]).host),
                    ) && list[i].get("port"@) == Some(
                        match broker_of(items[i]).port {
                            Some(port) => JsonView::Int(port as int),
                            None => JsonView::Null,
                        },
                    )),
                    _ => false,
                }
            }
        }),
{
    broadcast use group_members;

    reveal_strlit("brokers");
    reveal_strlit("count");
    assert("brokers"@.len() == 7
        && "count"@.len() == 5);
    reveal_strlit("host");
    reveal_strlit("port");
    assert("host"@.len() == 4
        && "port"@.len() == 4);
    assert("host"@[0] == 'h');
    assert("port"@[0] == 'p');
}

/// Without the text of a list, nothing is read.
pub proof fn law_brokers_missing(opts: JsonView)
    requires
        match opts.get("brokers"@) {
            Some(v) => !(v is Str),
            None => !(opts.get("bootstrap"@) matches Some(JsonView::Str(_))),
        },
    ensures
        parse_brokers_reply(opts) == Err::<JsonView, Seq<char>>("missing brokers"@),
{
}

/// An entry is written as it stands where it is a text; an object as its host, with its
/// port behind a colon where it has one; anything without a host cannot be written.
pub proof fn law_broker_written(entry: JsonView)
    ensures
        match entry {
            JsonView::Str(s) => entry_text(entry) == Some(s),
            _ => match entry.get("host"@) {
                Some(JsonView::Str(host)) if host.len() > 0 => match entry.get("port"@) {
                    Some(JsonView::Int(n)) if 0 <= n <= u64::MAX => entry_text(entry) == Some(
                        host + seq![':'] + decimal(n as nat),
                    ),
                    _ => entry_text(entry) == Some(host),
                },
                _ => entry_text(entry) is None,
            },
        },
{
    reveal_strlit(":");
    assert(":"@ =~= seq![':']);
}

/// A list of entries is written with commas between what they are written as, in their
/// order. It is refused where there is no array, where an entry cannot be written, and
/// where there is none.
pub proof fn law_brokers_built(opts: JsonView)
    ensures
        match opts.get("brokers"@) {
            Some(JsonView::Array(entries)) => if exists|i: int|
                0 <= i < entries.len() && entry_text(#[trigger] entries[i]) is None {
                build_brokers_reply(opts) == Err::<JsonView, Seq<char>>(
                    "broker entry missing host"@,
                )
            } else if entries.len() == 0 {
                build_brokers_reply(opts) == Err::<JsonView, Seq<char>>("broker list is empty"@)
            } else {
                build_brokers_reply(opts) matches Ok(reply) && reply.get("bootstrap"@) == Some(
                    JsonView::Str(
                        joined(
                            Seq::new(entries.len(), |i: int| entry_text(entries[i]).unwrap()),
                            seq![','],
                        ),
                    ),
                )
            },
            _ => build_brokers_reply(opts) == Err::<JsonView, Seq<char>>(
                "missing brokers (array)"@,
            ),
        },
{
    broadcast use group_members;

    reveal_strlit(",");
    assert(","@ =~= seq![',']);
    if let Some(JsonView::Array(entries)) = opts.get("brokers"@) {
        assert(entries.map_values(|e: JsonView| entry_text(e).unwrap()) =~= Seq::new(
            entries.len(),
            |i: int| entry_text(entries[i]).unwrap(),
        ));
    }
}

} // verus!
