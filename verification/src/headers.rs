//! Record headers: from options and flags to the client library, and from a
//! message to an answer.

use rdkafka::message::{Header, OwnedHeaders};
use vstd::prelude::*;
use vstd::string::*;
use vstd::utf8::*;

use crate::codec::{decode_lossy, lossy_text};
use crate::json::{law_put_member, lookup, member_views, put_member, set_member, Json, JsonView};
use crate::text::{lemma_first_index, split_first, split_once, texts};

verus! {

/// A list of record headers of the `rdkafka` crate.
#[verifier::external_type_specification]
#[verifier::external_body]
pub struct ExOwnedHeaders(OwnedHeaders);

/// The headers in a list, each with its name and the bytes of its value.
pub uninterp spec fn header_list(headers: OwnedHeaders) -> Seq<(Seq<char>, Seq<u8>)>;

/// How many headers a list may hold: the client library counts them in 32 bits,
/// and triples the room for them when it runs out.
pub const MAX_HEADERS: usize = 0x4000_0000;

/// `OwnedHeaders::new`: a list without headers.
pub assume_specification[ OwnedHeaders::new ]() -> (r: OwnedHeaders)
    ensures
        header_list(r).len() == 0,
;

/// `OwnedHeaders::insert`: the list with one header more, behind the others, which
/// stay as they are. A name may occur more than once.
#[verifier::external_body]
fn insert_header(headers: OwnedHeaders, key: &str, value: &str) -> (r: OwnedHeaders)
    requires
        header_list(headers).len() < MAX_HEADERS,
    ensures
        header_list(r) == header_list(headers).push((key@, encode_utf8(value@))),
{
    headers.insert(Header { key, value: Some(value) })
}

// ---- headers of a record to send ----

/// The headers that the members of an object stand for. A value that is no string
/// counts as the empty one.
pub open spec fn member_headers(members: Seq<(Seq<char>, JsonView)>) -> Seq<(Seq<char>, Seq<u8>)> {
    members.map_values(
        |m: (Seq<char>, JsonView)|
            (
                m.0,
                encode_utf8(
                    match m.1.as_str() {
                        Some(s) => s,
                        None => Seq::empty(),
                    },
                ),
            ),
    )
}

/// The headers asked for, if there are any.
pub open spec fn asked_headers(opts: JsonView) -> Option<Seq<(Seq<char>, Seq<u8>)>> {
    match opts.members("headers"@) {
        None => None,
        Some(members) => if members.len() == 0 {
            None
        } else {
            Some(member_headers(members))
        },
    }
}

/// No more headers are asked for than a list may hold.
pub open spec fn headers_fit(opts: JsonView) -> bool {
    opts.members("headers"@) matches Some(members) ==> members.len() <= MAX_HEADERS
}

/// Whether no more headers are asked for than a list may hold.
pub fn check_headers_fit(opts: &Json) -> (r: bool)
    ensures
        r == headers_fit(opts@),
{
    match opts.members("headers") {
        Some(members) => {
            assert(member_views(members@).len() == members@.len());
            members.len() <= MAX_HEADERS
        },
        None => true,
    }
}

/// Builds the list of headers that the members of an object stand for.
pub fn headers_of(members: &Vec<(String, Json)>) -> (r: OwnedHeaders)
    requires
        members@.len() <= MAX_HEADERS,
    ensures
        header_list(r) == member_headers(member_views(members@)),
{
    let ghost all = member_headers(member_views(members@));
    let mut headers = OwnedHeaders::new();
    let mut i: usize = 0;
    assert(header_list(headers) =~= all.take(0));
    while i < members.len()
        invariant
            i <= members@.len() <= MAX_HEADERS,
            all == member_headers(member_views(members@)),
            header_list(headers) == all.take(i as int),
        decreases members@.len() - i,
    {
        proof {
            assert(member_views(members@)[i as int] == (members@[i as int].0@, members@[i as int].1@));
            reveal_strlit("");
            assert(""@ =~= Seq::<char>::empty());
        }
        let value = match members[i].1.as_str() {
            Some(s) => s,
            None => "",
        };
        headers = insert_header(headers, members[i].0.as_str(), value);
        assert(all.take(i + 1) =~= all.take(i as int).push(all[i as int]));
        i = i + 1;
    }
    assert(all.take(i as int) =~= all);
    headers
}

/// Builds the headers asked for, if there are any.
pub fn build_headers(opts: &Json) -> (r: Option<OwnedHeaders>)
    requires
        headers_fit(opts@),
    ensures
        match r {
            Some(headers) => asked_headers(opts@) == Some(header_list(headers)),
            None => asked_headers(opts@) is None,
        },
{
    match opts.members("headers") {
        None => None,
        Some(members) => {
            assert(member_views(members@).len() == members@.len());
            if members.len() == 0 {
                None
            } else {
                Some(headers_of(members))
            }
        },
    }
}

/// The headers that `K=V` flags stand for. A flag without `=` stands for none.
pub open spec fn flag_headers(kvs: Seq<Seq<char>>) -> Seq<(Seq<char>, Seq<u8>)>
    decreases kvs.len(),
{
    if kvs.len() == 0 {
        Seq::empty()
    } else {
        let before = flag_headers(kvs.drop_last());
        match split_first(kvs.last(), '=') {
            Some((k, v)) => before.push((k, encode_utf8(v))),
            None => before,
        }
    }
}

/// Builds the headers that `K=V` flags stand for.
pub fn parse_headers(kvs: &[String]) -> (r: OwnedHeaders)
    requires
        kvs@.len() <= MAX_HEADERS,
    ensures
        header_list(r) == flag_headers(texts(kvs@)),
{
    let ghost all = texts(kvs@);
    let mut headers = OwnedHeaders::new();
    let mut i: usize = 0;
    assert(all.take(0) =~= Seq::empty());
    assert(header_list(headers) =~= flag_headers(all.take(0)));
    while i < kvs.len()
        invariant
            i <= kvs@.len() <= MAX_HEADERS,
            all == texts(kvs@),
            header_list(headers).len() <= i,
            header_list(headers) == flag_headers(all.take(i as int)),
        decreases kvs@.len() - i,
    {
        proof {
            assert(all.take(i + 1).drop_last() =~= all.take(i as int));
            assert(all.take(i + 1).last() == kvs@[i as int]@);
        }
        if let Some((k, v)) = split_once(kvs[i].as_str(), '=') {
            headers = insert_header(headers, k.as_str(), v.as_str());
        }
        i = i + 1;
    }
    assert(all.take(i as int) =~= all);
    headers
}

/// Flags stand for at least one header exactly where one of them has an `=`.
pub proof fn law_flag_headers(kvs: Seq<Seq<char>>)
    ensures
        flag_headers(kvs).len() > 0 <==> exists|i: int|
            0 <= i < kvs.len() && (#[trigger] kvs[i]).contains('='),
    decreases kvs.len(),
{
    if kvs.len() > 0 {
        let init = kvs.drop_last();
        law_flag_headers(init);
        kvs.last().index_of_first_ensures('=');
        if flag_headers(init).len() > 0 {
            let i = choose|i: int| 0 <= i < init.len() && (#[trigger] init[i]).contains('=');
            assert(kvs[i].contains('='));
        }
        if kvs.last().contains('=') {
            assert(kvs[kvs.len() - 1].contains('='));
        }
        if exists|i: int| 0 <= i < kvs.len() && (#[trigger] kvs[i]).contains('=') {
            let i = choose|i: int| 0 <= i < kvs.len() && (#[trigger] kvs[i]).contains('=');
            if i < init.len() {
                assert(init[i].contains('='));
            }
        }
    }
}

/// Where every flag has an `=`, each stands for a header of its own, in the order of
/// the flags, also where a name occurs twice.
pub proof fn law_flag_headers_in_order(kvs: Seq<Seq<char>>)
    requires
        forall|i: int| 0 <= i < kvs.len() ==> (#[trigger] kvs[i]).contains('='),
    ensures
        flag_headers(kvs) == kvs.map_values(
            |kv: Seq<char>|
                (split_first(kv, '=').unwrap().0, encode_utf8(split_first(kv, '=').unwrap().1)),
        ),
    decreases kvs.len(),
{
    if kvs.len() > 0 {
        let init = kvs.drop_last();
        assert forall|i: int| 0 <= i < init.len() implies (#[trigger] init[i]).contains('=') by {
            assert(kvs[i].contains('='));
        }
        law_flag_headers_in_order(init);
        assert(kvs[kvs.len() - 1].contains('='));
        kvs.last().index_of_first_ensures('=');
        assert(kvs =~= init.push(kvs.last()));
    }
    assert(flag_headers(kvs) =~= kvs.map_values(
        |kv: Seq<char>|
            (split_first(kv, '=').unwrap().0, encode_utf8(split_first(kv, '=').unwrap().1)),
    ));
}

// ---- headers of a message received ----

/// A header's value as text, if it has one.
pub open spec fn value_text(value: Option<Vec<u8>>) -> Option<Seq<char>> {
    match value {
        Some(bytes) => Some(lossy_text(bytes@)),
        None => None,
    }
}

/// A header's value in an answer: null, or in place of null the empty text, where
/// there is none.
pub open spec fn shown_value(value: Option<Vec<u8>>, empty_for_none: bool) -> JsonView {
    match value_text(value) {
        Some(s) => JsonView::Str(s),
        None => if empty_for_none {
            JsonView::Str(Seq::empty())
        } else {
            JsonView::Null
        },
    }
}

/// The headers of a message as members: of several with one name, the last.
pub open spec fn shown_headers(
    headers: Seq<(String, Option<Vec<u8>>)>,
    empty_for_none: bool,
) -> Seq<(Seq<char>, JsonView)>
    decreases headers.len(),
{
    if headers.len() == 0 {
        Seq::empty()
    } else {
        put_member(
            shown_headers(headers.drop_last(), empty_for_none),
            headers.last().0@,
            shown_value(headers.last().1, empty_for_none),
        )
    }
}

/// The headers of a message as an object. A header without a value is null, or the
/// empty text where that is asked for.
pub fn headers_to_json(headers: &Vec<(String, Option<Vec<u8>>)>, empty_for_none: bool) -> (r: Json)
    ensures
        r@ == JsonView::Object(shown_headers(headers@, empty_for_none)),
{
    let mut members: Vec<(String, Json)> = Vec::new();
    let mut i: usize = 0;
    assert(headers@.take(0) =~= Seq::empty());
    assert(member_views(members@) =~= Seq::empty());
    while i < headers.len()
        invariant
            i <= headers@.len(),
            member_views(members@) == shown_headers(headers@.take(i as int), empty_for_none),
        decreases headers@.len() - i,
    {
        proof {
            assert(headers@.take(i + 1).drop_last() =~= headers@.take(i as int));
        }
        let value = match &headers[i].1 {
            Some(bytes) => Json::Str(decode_lossy(bytes.as_slice())),
            None => if empty_for_none {
                Json::Str(String::new())
            } else {
                Json::Null
            },
        };
        set_member(&mut members, headers[i].0.clone(), value);
        i = i + 1;
    }
    proof {
        assert(headers@.take(i as int) =~= headers@);
        Json::lemma_object(members);
    }
    Json::Object(members)
}

/// The value of the last header with a name.
pub open spec fn last_value(headers: Seq<(String, Option<Vec<u8>>)>, name: Seq<char>) -> Option<
    Option<Vec<u8>>,
>
    decreases headers.len(),
{
    if headers.len() == 0 {
        None
    } else if headers.last().0@ == name {
        Some(headers.last().1)
    } else {
        last_value(headers.drop_last(), name)
    }
}

/// An answer shows, under each name, the last header with that name, and nothing
/// under any other.
pub proof fn law_last_header_shown(
    headers: Seq<(String, Option<Vec<u8>>)>,
    empty_for_none: bool,
    name: Seq<char>,
)
    ensures
        lookup(shown_headers(headers, empty_for_none), name) == match last_value(headers, name) {
            Some(value) => Some(shown_value(value, empty_for_none)),
            None => None,
        },
    decreases headers.len(),
{
    if headers.len() > 0 {
        law_last_header_shown(headers.drop_last(), empty_for_none, name);
        law_put_member(
            shown_headers(headers.drop_last(), empty_for_none),
            headers.last().0@,
            shown_value(headers.last().1, empty_for_none),
            name,
        );
    }
}

/// Headers are built one after the other from the members of an object: each has the
/// name of its member and the bytes of its text, none where the value is no string.
pub proof fn law_member_headers(members: Seq<(Seq<char>, JsonView)>, i: int)
    ensures
        member_headers(members).len() == members.len(),
        0 <= i < members.len() ==> member_headers(members)[i].0 == members[i].0 && match members[i].1 {
            JsonView::Str(s) => member_headers(members)[i].1 == encode_utf8(s),
            _ => member_headers(members)[i].1.len() == 0,
        },
{
    assert(encode_utf8(Seq::<char>::empty()).len() == 0);
}

/// Headers are asked for exactly where `headers` is an object with members, and then
/// all of them.
pub proof fn law_headers_asked_for(opts: JsonView)
    ensures
        match opts.get("headers"@) {
            Some(JsonView::Object(members)) => if members.len() == 0 {
                asked_headers(opts) is None
            } else {
                asked_headers(opts) == Some(member_headers(members))
            },
            _ => asked_headers(opts) is None,
        },
{
}

/// Flags stand for headers one after the other: `K=V` for one with that name and the
/// bytes of that value, also where the value holds another `=`; a flag without `=` for
/// none.
pub proof fn law_flag_headers_one_by_one(kvs: Seq<Seq<char>>, name: Seq<char>, value: Seq<char>)
    ensures
        !name.contains('=') ==> flag_headers(kvs.push(name + seq!['='] + value)) == flag_headers(
            kvs,
        ).push((name, encode_utf8(value))),
        !name.contains('=') ==> flag_headers(kvs.push(name)) == flag_headers(kvs),
        flag_headers(Seq::empty()).len() == 0,
{
    if !name.contains('=') {
        let flag = name + seq!['='] + value;
        assert(flag[name.len() as int] == '=');
        assert forall|j: int| 0 <= j < name.len() implies flag[j] != '=' by {
            assert(flag[j] == name[j]);
            assert(name.contains(name[j]));
        }
        lemma_first_index(flag, '=', name.len() as int);
        assert(flag.take(name.len() as int) =~= name);
        assert(flag.skip(name.len() as int + 1) =~= value);
        assert(kvs.push(flag).drop_last() =~= kvs);
        assert(kvs.push(name).drop_last() =~= kvs);
        name.index_of_first_ensures('=');
    }
}

/// A header that is the last of its name is shown by its text, as null where it has no
/// value, or as the empty text in place of null; a name that no header has is not shown.
pub proof fn law_header_shown(
    headers: Seq<(String, Option<Vec<u8>>)>,
    empty_for_none: bool,
    name: Seq<char>,
    i: int,
)
    ensures
        0 <= i < headers.len() && headers[i].0@ == name && (forall|j: int|
            i < j < headers.len() ==> (#[trigger] headers[j]).0@ != name) ==> JsonView::Object(
            shown_headers(headers, empty_for_none),
        ).get(name) == Some(
            match headers[i].1 {
                Some(bytes) => JsonView::Str(lossy_text(bytes@)),
                None => if empty_for_none {
                    JsonView::Str(Seq::empty())
                } else {
                    JsonView::Null
                },
            },
        ),
        (forall|j: int| 0 <= j < headers.len() ==> (#[trigger] headers[j]).0@ != name)
            ==> JsonView::Object(shown_headers(headers, empty_for_none)).get(name) is None,
    decreases headers.len(),
{
    if headers.len() > 0 {
        let init = headers.drop_last();
        law_put_member(
            shown_headers(init, empty_for_none),
            headers.last().0@,
            shown_value(headers.last().1, empty_for_none),
            name,
        );
        assert forall|j: int| 0 <= j < init.len() implies #[trigger] init[j] == headers[j] by {}
        if headers.last().0@ != name {
            law_header_shown(init, empty_for_none, name, i);
        } else {
            assert(headers[headers.len() - 1].0@ == name);
        }
    }
}

/// A list may hold 2^30 headers, and any options with no more than that fit.
pub proof fn law_headers_fit(opts: JsonView)
    ensures
        MAX_HEADERS == 0x4000_0000,
        headers_fit(opts) <==> match opts.get("headers"@) {
            Some(JsonView::Object(members)) => members.len() <= 0x4000_0000,
            _ => true,
        },
{
}

} // verus!
