//! Topic names: which ones a broker takes, which are internal, which collide.

use vstd::prelude::*;
use vstd::string::*;
use vstd::utf8::*;

use crate::error::{agrees, OpError};
use crate::json::{group_members, Json, JsonView};
use crate::text::{chars_of, str_eq};

verus! {

/// The characters that a topic name is made of.
pub open spec fn topic_char(c: char) -> bool {
    ||| 'a' <= c <= 'z'
    ||| 'A' <= c <= 'Z'
    ||| '0' <= c <= '9'
    ||| c == '.'
    ||| c == '_'
    ||| c == '-'
}

/// A text made of nothing but those characters.
pub open spec fn topic_chars(name: Seq<char>) -> bool {
    forall|i: int| 0 <= i < name.len() ==> topic_char(#[trigger] name[i])
}

/// What is wrong with a topic name, if anything. The length counts bytes.
pub open spec fn topic_name_fault(name: Seq<char>) -> Option<Seq<char>> {
    if name.len() == 0 {
        Some("empty"@)
    } else if name == "."@ || name == ".."@ {
        Some("reserved (`.` / `..`)"@)
    } else if encode_utf8(name).len() > 249 {
        Some("longer than 249 characters"@)
    } else if !topic_chars(name) {
        Some("illegal character (allowed: a-z A-Z 0-9 . _ -)"@)
    } else {
        None
    }
}

/// The answer on whether the member `name` is a topic name.
pub open spec fn valid_topic_name_reply(opts: JsonView) -> Result<JsonView, Seq<char>> {
    match opts.text("name"@) {
        None => Err("missing name"@),
        Some(name) => Ok(
            JsonView::object().with("name"@, JsonView::Str(name)).with(
                "valid"@,
                JsonView::Bool(topic_name_fault(name) is None),
            ).with("reason"@, JsonView::opt_str(topic_name_fault(name))),
        ),
    }
}

fn is_topic_text(name: &str) -> (r: bool)
    ensures
        r == topic_chars(name@),
{
    let chars = chars_of(name);
    let mut i: usize = 0;
    while i < chars.len()
        invariant
            i <= chars@.len(),
            chars@ == name@,
            forall|j: int| 0 <= j < i ==> topic_char(#[trigger] chars@[j]),
        decreases chars@.len() - i,
    {
        let c: char = chars[i];
        if !(('a' <= c && c <= 'z') || ('A' <= c && c <= 'Z') || ('0' <= c && c <= '9') || c == '.'
            || c == '_' || c == '-') {
            assert(!topic_char(name@[i as int]));
            return false;
        }
        i = i + 1;
    }
    true
}

/// A broker's rule for topic names, with the reason for a refusal.
pub fn op_valid_topic_name(opts: Json) -> (r: Result<Json, OpError>)
    ensures
        agrees(r, valid_topic_name_reply(opts@)),
{
    let name = match opts.text("name") {
        Some(name) => name,
        None => {
            return Err(OpError::new("missing name"));
        },
    };
    let bytes: &[u8] = name.as_bytes();
    let fault: Option<String> = if name.is_empty() {
        Some("empty".to_owned())
    } else if str_eq(name, ".") || str_eq(name, "..") {
        Some("reserved (`.` / `..`)".to_owned())
    } else if bytes.len() > 249 {
        Some("longer than 249 characters".to_owned())
    } else if !is_topic_text(name) {
        Some("illegal character (allowed: a-z A-Z 0-9 . _ -)".to_owned())
    } else {
        None
    };
    let valid = fault.is_none();
    Ok(
        Json::object().with("name", Json::str(name)).with("valid", Json::Bool(valid)).with(
            "reason",
            Json::opt_str(fault),
        ),
    )
}

/// A name is valid exactly if it has 1 to 249 characters, all of them letters,
/// digits, dots, underscores or hyphens, and is neither of the reserved two.
pub proof fn law_valid_topic_name(name: Seq<char>)
    ensures
        topic_name_fault(name) is None <==> {
            &&& 1 <= name.len() <= 249
            &&& topic_chars(name)
            &&& name != "."@
            &&& name != ".."@
        },
{
    if topic_chars(name) {
        assert forall|i: int| 0 <= i < name.len() implies '\0' <= #[trigger] name[i]
            <= '\u{7f}' by {
            assert(topic_char(name[i]));
        }
        is_ascii_chars_encode_utf8(name);
    }
}

/// The prefix of Kafka's own topics.
pub open spec fn internal_topic(name: Seq<char>) -> bool {
    name.len() >= 2 && name[0] == '_' && name[1] == '_'
}

/// The answer on whether the member `name` is an internal topic.
pub open spec fn is_internal_topic_reply(opts: JsonView) -> Result<JsonView, Seq<char>> {
    match opts.text("name"@) {
        None => Err("missing name"@),
        Some(name) => Ok(
            JsonView::object().with("name"@, JsonView::Str(name)).with(
                "internal"@,
                JsonView::Bool(internal_topic(name)),
            ),
        ),
    }
}

/// Whether a topic is one of Kafka's own.
pub fn op_is_internal_topic(opts: Json) -> (r: Result<Json, OpError>)
    ensures
        agrees(r, is_internal_topic_reply(opts@)),
{
    let name = match opts.text("name") {
        Some(name) => name,
        None => {
            return Err(OpError::new("missing name"));
        },
    };
    let chars = chars_of(name);
    let internal = chars.len() >= 2 && chars[0] == '_' && chars[1] == '_';
    Ok(Json::object().with("name", Json::str(name)).with("internal", Json::Bool(internal)))
}

/// The form of a name in the metric namespace: every dot an underscore.
pub open spec fn unified(name: Seq<char>) -> Seq<char> {
    name.map_values(
        |c: char|
            if c == '.' {
                '_'
            } else {
                c
            },
    )
}

/// Two topics collide when their forms in the metric namespace are equal.
pub open spec fn topics_collide(a: Seq<char>, b: Seq<char>) -> bool {
    unified(a) == unified(b)
}

/// A name that holds a dot or an underscore.
pub open spec fn has_collision_chars(name: Seq<char>) -> bool {
    name.contains('.') || name.contains('_')
}

/// The answer on whether the members `a` and `b` collide.
pub open spec fn topics_collide_reply(opts: JsonView) -> Result<JsonView, Seq<char>> {
    match (opts.text("a"@), opts.text("b"@)) {
        (None, _) => Err("missing a"@),
        (_, None) => Err("missing b"@),
        (Some(a), Some(b)) => Ok(
            JsonView::object().with("collide"@, JsonView::Bool(topics_collide(a, b))).with(
                "unified_a"@,
                JsonView::Str(unified(a)),
            ).with("unified_b"@, JsonView::Str(unified(b))).with(
                "a_has_collision_chars"@,
                JsonView::Bool(has_collision_chars(a)),
            ).with("b_has_collision_chars"@, JsonView::Bool(has_collision_chars(b))),
        ),
    }
}

fn unify(name: &str) -> (r: String)
    ensures
        r@ == unified(name@),
{
    let chars = chars_of(name);
    let mut out = String::new();
    let mut i: usize = 0;
    while i < chars.len()
        invariant
            i <= chars@.len(),
            chars@ == name@,
            out@ == unified(name@).take(i as int),
        decreases chars@.len() - i,
    {
        let c: char = chars[i];
        out.push(
            if c == '.' {
                '_'
            } else {
                c
            },
        );
        assert(out@ =~= unified(name@).take(i + 1));
        i = i + 1;
    }
    assert(unified(name@).take(i as int) =~= unified(name@));
    out
}

fn holds_collision_chars(name: &str) -> (r: bool)
    ensures
        r == has_collision_chars(name@),
{
    let chars = chars_of(name);
    let mut i: usize = 0;
    while i < chars.len()
        invariant
            i <= chars@.len(),
            chars@ == name@,
            forall|j: int| 0 <= j < i ==> #[trigger] chars@[j] != '.' && chars@[j] != '_',
        decreases chars@.len() - i,
    {
        if chars[i] == '.' || chars[i] == '_' {
            assert(name@.contains(chars@[i as int]));
            return true;
        }
        i = i + 1;
    }
    false
}

/// Whether two topic names collide in Kafka's metric namespace.
pub fn op_topics_collide(opts: Json) -> (r: Result<Json, OpError>)
    ensures
        agrees(r, topics_collide_reply(opts@)),
{
    let a = match opts.text("a") {
        Some(a) => a,
        None => {
            return Err(OpError::new("missing a"));
        },
    };
    let b = match opts.text("b") {
        Some(b) => b,
        None => {
            return Err(OpError::new("missing b"));
        },
    };
    let unified_a = unify(a);
    let unified_b = unify(b);
    let collide = str_eq(unified_a.as_str(), unified_b.as_str());
    Ok(
        Json::object().with("collide", Json::Bool(collide)).with(
            "unified_a",
            Json::Str(unified_a),
        ).with("unified_b", Json::Str(unified_b)).with(
            "a_has_collision_chars",
            Json::Bool(holds_collision_chars(a)),
        ).with("b_has_collision_chars", Json::Bool(holds_collision_chars(b))),
    )
}

/// Colliding is an equivalence, and every name collides with its own form in
/// the metric namespace.
pub proof fn law_collision_equivalence(a: Seq<char>, b: Seq<char>, c: Seq<char>)
    ensures
        topics_collide(a, a),
        topics_collide(a, b) ==> topics_collide(b, a),
        topics_collide(a, b) && topics_collide(b, c) ==> topics_collide(a, c),
        topics_collide(a, unified(a)),
{
    assert(unified(unified(a)) =~= unified(a));
}

/// Names without a dot or an underscore collide only with themselves.
pub proof fn law_collision_needs_chars(a: Seq<char>, b: Seq<char>)
    requires
        !has_collision_chars(a),
        topics_collide(a, b),
    ensures
        a == b,
{
    assert(a.len() == unified(a).len());
    assert(b.len() == unified(b).len());
    assert forall|i: int| 0 <= i < a.len() implies a[i] == b[i] by {
        assert(unified(a)[i] == unified(b)[i]);
        assert(a.contains(a[i]));
    }
    assert(a =~= b);
}

/// A name is called valid exactly where it has 1 to 249 characters, letters, digits, dots,
/// underscores or hyphens of ASCII alone, and is not one dot or two. A reason is given
/// exactly where it is not valid: the first that applies.
pub proof fn law_topic_name_judged(opts: JsonView)
    ensures
        match opts.get("name"@) {
            Some(JsonView::Str(name)) => {
                let fine = |c: char|
                    'a' <= c <= 'z' || 'A' <= c <= 'Z' || '0' <= c <= '9' || c == '.' || c == '_'
                        || c == '-';
                let valid = 1 <= name.len() <= 249 && (forall|i: int|
                    0 <= i < name.len() ==> fine(#[trigger] name[i])) && name != seq!['.'] && name
                    != seq!['.', '.'];
                valid_topic_name_reply(opts) matches Ok(reply) && reply.get("name"@) == Some(
                    JsonView::Str(name),
                ) && reply.get("valid"@) == Some(JsonView::Bool(valid)) && reply.get("reason"@)
                    == Some(
                    if valid {
                        JsonView::Null
                    } else if name.len() == 0 {
                        JsonView::Str("empty"@)
                    } else if name == seq!['.'] || name == seq!['.', '.'] {
                        JsonView::Str("reserved (`.` / `..`)"@)
                    } else if encode_utf8(name).len() > 249 {
                        JsonView::Str("longer than 249 characters"@)
                    } else {
                        JsonView::Str("illegal character (allowed: a-z A-Z 0-9 . _ -)"@)
                    },
                )
            },
            _ => valid_topic_name_reply(opts) == Err::<JsonView, Seq<char>>("missing name"@),
        },
{
    broadcast use group_members;

    reveal_strlit("name");
    reveal_strlit("valid");
    reveal_strlit("reason");
    assert("name"@.len() == 4
        && "valid"@.len() == 5
        && "reason"@.len() == 6);
    reveal_strlit(".");
    reveal_strlit("..");
    assert("."@ =~= seq!['.']);
    assert(".."@ =~= seq!['.', '.']);
    if let Some(JsonView::Str(name)) = opts.get("name"@) {
        law_valid_topic_name(name);
        let fine = |c: char|
            'a' <= c <= 'z' || 'A' <= c <= 'Z' || '0' <= c <= '9' || c == '.' || c == '_' || c
                == '-';
        assert(topic_chars(name) <==> forall|i: int|
            0 <= i < name.len() ==> fine(#[trigger] name[i])) by {
            if topic_chars(name) {
                assert forall|i: int| 0 <= i < name.len() implies fine(#[trigger] name[i]) by {
                    assert(topic_char(name[i]));
                }
            }
            if forall|i: int| 0 <= i < name.len() ==> fine(#[trigger] name[i]) {
                assert forall|i: int| 0 <= i < name.len() implies topic_char(
                    #[trigger] name[i],
                ) by {
                    assert(fine(name[i]));
                }
            }
        }
    }
}

/// A topic is called internal exactly where its name begins with two underscores.
pub proof fn law_internal_topic_told(opts: JsonView, rest: Seq<char>)
    ensures
        match opts.get("name"@) {
            Some(JsonView::Str(name)) => is_internal_topic_reply(opts) matches Ok(reply)
                && reply.get("name"@) == Some(JsonView::Str(name)) && reply.get("internal"@)
                == Some(JsonView::Bool(seq!['_', '_'].is_prefix_of(name))),
            _ => is_internal_topic_reply(opts) == Err::<JsonView, Seq<char>>("missing name"@),
        },
        internal_topic(seq!['_', '_'] + rest),
        internal_topic(rest) ==> rest == seq!['_', '_'] + rest.skip(2),
{
    broadcast use group_members;

    reveal_strlit("name");
    reveal_strlit("internal");
    assert("name"@.len() == 4
        && "internal"@.len() == 8);
    if internal_topic(rest) {
        assert(rest =~= seq!['_', '_'] + rest.skip(2));
    }
    if let Some(JsonView::Str(name)) = opts.get("name"@) {
        let two = seq!['_', '_'];
        if name.len() >= 2 {
            assert(name.take(2)[0] == name[0] && name.take(2)[1] == name[1]);
            if name[0] == '_' && name[1] == '_' {
                assert(two =~= name.take(2));
            }
        }
        if two.is_prefix_of(name) {
            assert(two[0] == '_' && two[1] == '_');
        }
    }
}

/// Two topics are told to collide exactly where their names have the same length and in
/// every place the same character, a dot being taken for an underscore. Each is shown in
/// the form with underscores, and by whether it holds a dot or an underscore.
pub proof fn law_collision_told(opts: JsonView)
    ensures
        match (opts.get("a"@), opts.get("b"@)) {
            (Some(JsonView::Str(a)), Some(JsonView::Str(b))) => {
                let flat = |s: Seq<char>|
                    Seq::new(
                        s.len(),
                        |i: int|
                            if s[i] == '.' {
                                '_'
                            } else {
                                s[i]
                            },
                    );
                let marked = |s: Seq<char>|
                    exists|i: int| 0 <= i < s.len() && (#[trigger] s[i] == '.' || s[i] == '_');
                topics_collide_reply(opts) matches Ok(reply) && reply.get("collide"@) == Some(
                    JsonView::Bool(flat(a) == flat(b)),
                ) && reply.get("unified_a"@) == Some(JsonView::Str(flat(a))) && reply.get(
                    "unified_b"@,
                ) == Some(JsonView::Str(flat(b))) && reply.get("a_has_collision_chars"@) == Some(
                    JsonView::Bool(marked(a)),
                ) && reply.get("b_has_collision_chars"@) == Some(JsonView::Bool(marked(b)))
            },
            (Some(JsonView::Str(_)), _) => topics_collide_reply(opts) == Err::<
                JsonView,
                Seq<char>,
            >("missing b"@),
            _ => topics_collide_reply(opts) == Err::<JsonView, Seq<char>>("missing a"@),
        },
{
    broadcast use group_members;

    reveal_strlit("collide");
    reveal_strlit("unified_a");
    reveal_strlit("unified_b");
    reveal_strlit("a_has_collision_chars");
    reveal_strlit("b_has_collision_chars");
    assert("collide"@.len() == 7
        && "unified_a"@.len() == 9
        && "unified_b"@.len() == 9
        && "a_has_collision_chars"@.len() == 21
        && "b_has_collision_chars"@.len() == 21);
    assert("unified_a"@[8] == 'a');
    assert("unified_b"@[8] == 'b');
    assert("a_has_collision_chars"@[0] == 'a');
    assert("b_has_collision_chars"@[0] == 'b');
    if let (Some(JsonView::Str(a)), Some(JsonView::Str(b))) = (opts.get("a"@), opts.get("b"@)) {
        let flat = |s: Seq<char>|
            Seq::new(
                s.len(),
                |i: int|
                    if s[i] == '.' {
                        '_'
                    } else {
                        s[i]
                    },
            );
        assert(flat(a) =~= unified(a));
        assert(flat(b) =~= unified(b));
        lemma_marked(a);
        lemma_marked(b);
    }
}

proof fn lemma_marked(s: Seq<char>)
    ensures
        has_collision_chars(s) <==> exists|i: int|
            0 <= i < s.len() && (#[trigger] s[i] == '.' || s[i] == '_'),
{
    if exists|i: int| 0 <= i < s.len() && (#[trigger] s[i] == '.' || s[i] == '_') {
        let i = choose|i: int| 0 <= i < s.len() && (#[trigger] s[i] == '.' || s[i] == '_');
        assert(s.contains(s[i]));
    }
    if s.contains('.') {
        let i = choose|i: int| 0 <= i < s.len() && s[i] == '.';
        assert(s[i] == '.');
    }
    if s.contains('_') {
        let i = choose|i: int| 0 <= i < s.len() && s[i] == '_';
        assert(s[i] == '_');
    }
}

} // verus!
