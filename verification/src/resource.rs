//! Resources whose configuration can be asked for and altered: topics, groups and
//! brokers.

use vstd::prelude::*;
use vstd::string::*;

use crate::error::OpError;
use crate::json::{Json, JsonView};
use crate::number::{parse_i64, signed32, signed_decimal, signed_value, to_signed_decimal, truncate};
use crate::text::{concat3, lemma_first_index, split_first, split_once, str_eq};

verus! {

/// A resource, by its name or its broker id.
#[derive(Debug, PartialEq, Eq)]
pub enum ResourceSpecifier {
    Topic(String),
    Group(String),
    Broker(i32),
}

/// The model of a resource.
pub enum ResourceView {
    Topic(Seq<char>),
    Group(Seq<char>),
    Broker(int),
}

impl View for ResourceSpecifier {
    type V = ResourceView;

    open spec fn view(&self) -> ResourceView {
        match self {
            ResourceSpecifier::Topic(name) => ResourceView::Topic(name@),
            ResourceSpecifier::Group(name) => ResourceView::Group(name@),
            ResourceSpecifier::Broker(id) => ResourceView::Broker(*id as int),
        }
    }
}

/// The kind of resource asked for, a topic where nothing else is said.
pub open spec fn asked_kind(opts: JsonView) -> Seq<char> {
    match opts.text("resource_type"@) {
        Some(kind) => kind,
        None => "topic"@,
    }
}

/// The broker id asked for, as a number or as a numeral.
pub open spec fn asked_broker(opts: JsonView) -> Option<int> {
    match opts.get("resource_name"@) {
        None => None,
        Some(v) => match (v.as_i64(), v.as_str()) {
            (Some(id), _) => Some(id as int),
            (None, Some(s)) => signed_value(s),
            (None, None) => None,
        },
    }
}

/// The resource asked for: its tag `kind:name`, and the id where it is a broker.
/// Of the id the lower 32 bits count.
pub open spec fn resource_request(opts: JsonView) -> Result<(Seq<char>, Option<int>), Seq<char>> {
    let kind = asked_kind(opts);
    if kind == "topic"@ || kind == "group"@ {
        match opts.text("resource_name"@) {
            Some(name) => Ok((kind + ":"@ + name, None)),
            None => Err("missing resource_name"@),
        }
    } else if kind == "broker"@ {
        match asked_broker(opts) {
            Some(id) => Ok(("broker:"@ + signed_decimal(id), Some(signed32(id)))),
            None => Err("broker resource_name must be a broker id"@),
        }
    } else {
        Err("unknown resource_type `"@ + kind + "` (want topic|broker|group)"@)
    }
}

/// Reads which resource is asked for.
pub fn resource_parts(opts: &Json) -> (r: Result<(String, Option<i32>), OpError>)
    ensures
        match (r, resource_request(opts@)) {
            (Ok((tag, None)), Ok((t, None))) => tag@ == t,
            (Ok((tag, Some(id))), Ok((t, Some(n)))) => tag@ == t && id == n,
            (Err(e), Err(message)) => e@ == message,
            _ => false,
        },
{
    let kind = match opts.text("resource_type") {
        Some(kind) => kind,
        None => "topic",
    };
    if str_eq(kind, "topic") || str_eq(kind, "group") {
        match opts.text("resource_name") {
            Some(name) => Ok((concat3(kind, ":", name), None)),
            None => Err(OpError::new("missing resource_name")),
        }
    } else if str_eq(kind, "broker") {
        let id: Option<i64> = match opts.get("resource_name") {
            None => None,
            Some(v) => match v.as_i64() {
                Some(id) => Some(id),
                None => match v.as_str() {
                    Some(s) => parse_i64(s),
                    None => None,
                },
            },
        };
        match id {
            Some(id) => {
                let mut tag = "broker:".to_owned();
                tag.append(to_signed_decimal(id).as_str());
                Ok((tag, Some(truncate(id))))
            },
            None => Err(OpError::new("broker resource_name must be a broker id")),
        }
    } else {
        Err(
            OpError {
                message: concat3(
                    "unknown resource_type `",
                    kind,
                    "` (want topic|broker|group)",
                ),
            },
        )
    }
}

/// The resource that a tag and a broker id stand for. The kind ends at the first
/// colon; a broker without an id is broker zero.
pub open spec fn specified(tag: Seq<char>, broker_id: Option<i32>) -> Result<
    ResourceView,
    Seq<char>,
> {
    match split_first(tag, ':') {
        None => Err("bad resource tag"@),
        Some((kind, name)) => if kind == "topic"@ {
            Ok(ResourceView::Topic(name))
        } else if kind == "group"@ {
            Ok(ResourceView::Group(name))
        } else if kind == "broker"@ {
            Ok(
                ResourceView::Broker(
                    match broker_id {
                        Some(id) => id as int,
                        None => 0,
                    },
                ),
            )
        } else {
            Err("bad resource kind"@)
        },
    }
}

/// Names the resource that a tag and a broker id stand for.
pub fn make_specifier(tag: &str, broker_id: Option<i32>) -> (r: Result<ResourceSpecifier, OpError>)
    ensures
        match (r, specified(tag@, broker_id)) {
            (Ok(spec), Ok(m)) => spec@ == m,
            (Err(e), Err(message)) => e@ == message,
            _ => false,
        },
{
    let (kind, name) = match split_once(tag, ':') {
        Some(parts) => parts,
        None => {
            return Err(OpError::new("bad resource tag"));
        },
    };
    if str_eq(kind.as_str(), "topic") {
        Ok(ResourceSpecifier::Topic(name))
    } else if str_eq(kind.as_str(), "group") {
        Ok(ResourceSpecifier::Group(name))
    } else if str_eq(kind.as_str(), "broker") {
        Ok(
            ResourceSpecifier::Broker(
                match broker_id {
                    Some(id) => id,
                    None => 0,
                },
            ),
        )
    } else {
        Err(OpError::new("bad resource kind"))
    }
}

/// What is asked for is what is specified: a topic or group of that name, also
/// where the name holds a colon, or a broker of that id.
pub proof fn law_asked_is_specified(opts: JsonView, tag: Seq<char>, id: Option<i32>)
    requires
        resource_request(opts) matches Ok((t, n)) && t == tag && match (id, n) {
            (Some(id), Some(n)) => id == n,
            (None, None) => true,
            _ => false,
        },
    ensures
        specified(tag, id) == Ok::<ResourceView, Seq<char>>(
            if asked_kind(opts) == "topic"@ {
                ResourceView::Topic(opts.text("resource_name"@).unwrap())
            } else if asked_kind(opts) == "group"@ {
                ResourceView::Group(opts.text("resource_name"@).unwrap())
            } else {
                ResourceView::Broker(signed32(asked_broker(opts).unwrap()))
            },
        ),
{
    reveal_strlit("topic");
    reveal_strlit("group");
    reveal_strlit("broker");
    reveal_strlit("broker:");
    reveal_strlit(":");
    let kind = asked_kind(opts);
    let at = kind.len() as int;
    assert("topic"@[0] == 't' && "group"@[0] == 'g' && "broker"@[0] == 'b');
    if kind == "broker"@ {
        assert("broker:"@ =~= "broker"@ + ":"@);
    }
    assert(tag.len() > at && tag[at] == ':');
    assert forall|j: int| 0 <= j < at implies tag[j] != ':' by {
        assert(tag[j] == kind[j]);
    }
    lemma_first_index(tag, ':', at);
    assert(tag.take(at) =~= kind);
    if kind != "broker"@ {
        assert(tag.skip(at + 1) =~= opts.text("resource_name"@).unwrap());
    }
}

/// A resource is known by its kind and its name or number with a colon between them: a
/// topic or a group by the text of its name, a broker by its id, a number or a numeral of
/// 64 bits of which 32 count. Any other kind is refused by its name.
pub proof fn law_resource_as_asked(opts: JsonView)
    ensures
        ({
            let kind = match opts.get("resource_type"@) {
                Some(JsonView::Str(kind)) => kind,
                _ => "topic"@,
            };
            if kind == "topic"@ || kind == "group"@ {
                match opts.get("resource_name"@) {
                    Some(JsonView::Str(name)) => resource_request(opts) == Ok::<
                        (Seq<char>, Option<int>),
                        Seq<char>,
                    >((kind + seq![':'] + name, None)),
                    _ => resource_request(opts) == Err::<(Seq<char>, Option<int>), Seq<char>>(
                        "missing resource_name"@,
                    ),
                }
            } else if kind == "broker"@ {
                match opts.get("resource_name"@) {
                    Some(JsonView::Int(id)) if i64::MIN <= id <= i64::MAX => resource_request(
                        opts,
                    ) matches Ok((tag, Some(n))) && tag == kind + seq![':'] + signed_decimal(id)
                        && i32::MIN <= n <= i32::MAX && (id - n) % 0x1_0000_0000 == 0,
                    Some(JsonView::Str(s)) => match signed_value(s) {
                        Some(id) => resource_request(opts) matches Ok((tag, Some(n))) && tag == kind
                            + seq![':'] + signed_decimal(id) && i32::MIN <= n <= i32::MAX && (id
                            - n) % 0x1_0000_0000 == 0,
                        None => resource_request(opts) == Err::<
                            (Seq<char>, Option<int>),
                            Seq<char>,
                        >("broker resource_name must be a broker id"@),
                    },
                    _ => resource_request(opts) == Err::<(Seq<char>, Option<int>), Seq<char>>(
                        "broker resource_name must be a broker id"@,
                    ),
                }
            } else {
                resource_request(opts) == Err::<(Seq<char>, Option<int>), Seq<char>>(
                    "unknown resource_type `"@ + kind + "` (want topic|broker|group)"@,
                )
            }
        }),
{
    reveal_strlit(":");
    reveal_strlit("broker");
    reveal_strlit("broker:");
    assert(":"@ =~= seq![':']);
    assert("broker:"@ =~= "broker"@ + seq![':']);
}

/// A tag specifies the resource of the kind before its first colon and of the name behind
/// it; a broker is specified by the id alone, zero where there is none.
pub proof fn law_tag_specifies(name: Seq<char>, id: Option<i32>)
    ensures
        specified("topic"@ + seq![':'] + name, id) == Ok::<ResourceView, Seq<char>>(
            ResourceView::Topic(name),
        ),
        specified("group"@ + seq![':'] + name, id) == Ok::<ResourceView, Seq<char>>(
            ResourceView::Group(name),
        ),
        specified("broker"@ + seq![':'] + name, id) == Ok::<ResourceView, Seq<char>>(
            ResourceView::Broker(
                match id {
                    Some(n) => n as int,
                    None => 0,
                },
            ),
        ),
        !name.contains(':') ==> specified(name, id) == Err::<ResourceView, Seq<char>>(
            "bad resource tag"@,
        ),
        !name.contains(':') && name != "topic"@ && name != "group"@ && name != "broker"@
            ==> specified(name + seq![':'] + name, id) == Err::<ResourceView, Seq<char>>(
            "bad resource kind"@,
        ),
{
    reveal_strlit("topic");
    reveal_strlit("group");
    reveal_strlit("broker");
    assert("topic"@.len() == 5
        && "group"@.len() == 5
        && "broker"@.len() == 6);
    assert("topic"@[0] == 't');
    assert("group"@[0] == 'g');
    lemma_tag("topic"@, name);
    lemma_tag("group"@, name);
    lemma_tag("broker"@, name);
    name.index_of_first_ensures(':');
    if !name.contains(':') {
        lemma_tag(name, name);
    }
}

proof fn lemma_tag(kind: Seq<char>, name: Seq<char>)
    requires
        forall|j: int| 0 <= j < kind.len() ==> kind[j] != ':',
    ensures
        split_first(kind + seq![':'] + name, ':') == Some((kind, name)),
{
    let tag = kind + seq![':'] + name;
    let at = kind.len() as int;
    assert(tag[at] == ':');
    assert forall|j: int| 0 <= j < at implies tag[j] != ':' by {
        assert(tag[j] == kind[j]);
    }
    lemma_first_index(tag, ':', at);
    assert(tag.take(at) =~= kind);
    assert(tag.skip(at + 1) =~= name);
}

/// The model of a resource is the resource.
pub proof fn law_resource_model(resource: ResourceSpecifier)
    ensures
        match resource {
            ResourceSpecifier::Topic(name) => resource@ == ResourceView::Topic(name@),
            ResourceSpecifier::Group(name) => resource@ == ResourceView::Group(name@),
            ResourceSpecifier::Broker(id) => resource@ == ResourceView::Broker(id as int),
        },
{
}

} // verus!
