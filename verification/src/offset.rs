//! The special offsets and their names.

use vstd::prelude::*;
use vstd::string::*;

use crate::error::{agrees, OpError};
use crate::json::{group_members, Json, JsonView};
use crate::text::{chars_of, concat3, lemma_char_range, str_eq};

verus! {

/// The name of a special offset.
pub open spec fn offset_name(offset: i64) -> Option<Seq<char>> {
    if offset == -1 {
        Some("latest"@)
    } else if offset == -2 {
        Some("earliest"@)
    } else {
        None
    }
}

/// The letter in lower case, where it is one of A to Z.
pub open spec fn ascii_lower(c: char) -> char {
    if 'A' <= c <= 'Z' {
        (c as u32 + 32) as char
    } else {
        c
    }
}

/// The text with the letters A to Z in lower case.
pub open spec fn lower(s: Seq<char>) -> Seq<char> {
    s.map_values(|c: char| ascii_lower(c))
}

/// The special offset of a name, in letters of either case.
pub open spec fn named_offset(name: Seq<char>) -> Option<int> {
    let key = lower(name);
    if key == "latest"@ || key == "end"@ {
        Some(-1)
    } else if key == "earliest"@ || key == "beginning"@ || key == "start"@ {
        Some(-2)
    } else {
        None
    }
}

/// The answer for the member `offset`, or else for the member `name`.
pub open spec fn format_offset_reply(opts: JsonView) -> Result<JsonView, Seq<char>> {
    match (opts.signed("offset"@), opts.text("name"@)) {
        (Some(offset), _) => Ok(
            JsonView::object().with("offset"@, JsonView::Int(offset as int)).with(
                "name"@,
                JsonView::opt_str(offset_name(offset)),
            ),
        ),
        (None, Some(name)) => match named_offset(name) {
            Some(offset) => Ok(
                JsonView::object().with("name"@, JsonView::Str(name)).with(
                    "offset"@,
                    JsonView::Int(offset),
                ),
            ),
            None => Err(
                "unknown offset name `"@ + lower(name) + "` (latest|earliest)"@,
            ),
        },
        (None, None) => Err("format_offset requires `offset` or `name`"@),
    }
}

fn to_lower(s: &str) -> (r: String)
    ensures
        r@ == lower(s@),
{
    let chars = chars_of(s);
    let mut out = String::new();
    let mut i: usize = 0;
    while i < chars.len()
        invariant
            i <= chars@.len(),
            chars@ == s@,
            out@ == lower(s@).take(i as int),
        decreases chars@.len() - i,
    {
        let c: char = chars[i];
        proof {
            lemma_char_range(c);
        }
        if 'A' <= c && c <= 'Z' {
            out.push((c as u8 + 32) as char);
        } else {
            out.push(c);
        }
        assert(out@ =~= lower(s@).take(i + 1));
        i = i + 1;
    }
    assert(lower(s@).take(i as int) =~= lower(s@));
    out
}

/// Translates between the special offsets and their names.
pub fn op_format_offset(opts: Json) -> (r: Result<Json, OpError>)
    ensures
        agrees(r, format_offset_reply(opts@)),
{
    if let Some(offset) = opts.signed("offset") {
        let name: Option<String> = if offset == -1 {
            Some("latest".to_owned())
        } else if offset == -2 {
            Some("earliest".to_owned())
        } else {
            None
        };
        return Ok(
            Json::object().with("offset", Json::Int(offset as i128)).with(
                "name",
                Json::opt_str(name),
            ),
        );
    }
    if let Some(name) = opts.text("name") {
        let key = to_lower(name);
        let key: &str = key.as_str();
        let offset: i128 = if str_eq(key, "latest") || str_eq(key, "end") {
            -1
        } else if str_eq(key, "earliest") || str_eq(key, "beginning") || str_eq(key, "start") {
            -2
        } else {
            return Err(
                OpError { message: concat3("unknown offset name `", key, "` (latest|earliest)") },
            );
        };
        return Ok(
            Json::object().with("name", Json::str(name)).with("offset", Json::Int(offset)),
        );
    }
    Err(OpError::new("format_offset requires `offset` or `name`"))
}

/// The name of a special offset names that offset.
pub proof fn law_offset_names_round_trip(offset: i64)
    ensures
        match offset_name(offset) {
            Some(name) => named_offset(name) == Some(offset as int),
            None => offset != -1 && offset != -2,
        },
{
    reveal_strlit("latest");
    reveal_strlit("earliest");
    reveal_strlit("end");
    assert(lower("latest"@) =~= "latest"@);
    assert(lower("earliest"@) =~= "earliest"@);
    assert("earliest"@.len() == 8);
    assert("latest"@.len() == 6);
    assert("end"@.len() == 3);
}

/// The case of a name's letters does not matter.
pub proof fn law_offset_names_ignore_case(a: Seq<char>, b: Seq<char>)
    requires
        lower(a) == lower(b),
    ensures
        named_offset(a) == named_offset(b),
{
}

/// An offset is answered with itself and its name: `latest` for -1, `earliest` for -2, and
/// null for any other.
pub proof fn law_offset_named(opts: JsonView, n: int)
    requires
        opts.get("offset"@) == Some(JsonView::Int(n)),
        i64::MIN <= n <= i64::MAX,
    ensures
        format_offset_reply(opts) matches Ok(reply) && reply.get("offset"@) == Some(
            JsonView::Int(n),
        ) && reply.get("name"@) == Some(
            if n == -1 {
                JsonView::Str("latest"@)
            } else if n == -2 {
                JsonView::Str("earliest"@)
            } else {
                JsonView::Null
            },
        ),
{
    broadcast use group_members;

    reveal_strlit("offset");
    reveal_strlit("name");
    assert("offset"@.len() == 6
        && "name"@.len() == 4);
}

/// Where there is no number under `offset`, a name is answered with itself and its
/// offset: -1 for `latest` and `end`, -2 for `earliest`, `beginning` and `start`, in
/// letters of either case. Any other name is refused, and so is the lack of one.
pub proof fn law_name_numbered(opts: JsonView)
    requires
        opts.signed("offset"@) is None,
    ensures
        match opts.get("name"@) {
            Some(JsonView::Str(name)) => {
                let like = |s: Seq<char>|
                    name.len() == s.len() && forall|i: int|
                        0 <= i < s.len() ==> (#[trigger] name[i] == s[i] || 'A' <= name[i] <= 'Z'
                            && name[i] as int + 32 == s[i] as int);
                if like("latest"@) || like("end"@) {
                    format_offset_reply(opts) matches Ok(reply) && reply.get("name"@) == Some(
                        JsonView::Str(name),
                    ) && reply.get("offset"@) == Some(JsonView::Int(-1))
                } else if like("earliest"@) || like("beginning"@) || like("start"@) {
                    format_offset_reply(opts) matches Ok(reply) && reply.get("name"@) == Some(
                        JsonView::Str(name),
                    ) && reply.get("offset"@) == Some(JsonView::Int(-2))
                } else {
                    format_offset_reply(opts) == Err::<JsonView, Seq<char>>(
                        "unknown offset name `"@ + lower(name) + "` (latest|earliest)"@,
                    )
                }
            },
            _ => format_offset_reply(opts) == Err::<JsonView, Seq<char>>(
                "format_offset requires `offset` or `name`"@,
            ),
        },
{
    broadcast use group_members;

    reveal_strlit("offset");
    reveal_strlit("name");
    reveal_strlit("latest");
    reveal_strlit("end");
    reveal_strlit("earliest");
    reveal_strlit("beginning");
    reveal_strlit("start");
    assert("offset"@.len() == 6
        && "name"@.len() == 4
        && "latest"@.len() == 6
        && "end"@.len() == 3
        && "earliest"@.len() == 8
        && "beginning"@.len() == 9
        && "start"@.len() == 5);
    assert("offset"@[0] == 'o');
    assert("latest"@[0] == 'l');
    if let Some(JsonView::Str(name)) = opts.get("name"@) {
        lemma_lower_like(name, "latest"@);
        lemma_lower_like(name, "end"@);
        lemma_lower_like(name, "earliest"@);
        lemma_lower_like(name, "beginning"@);
        lemma_lower_like(name, "start"@);
    }
}

/// A text in lower case is another's exactly where the other has in every place that
/// letter, of either case.
proof fn lemma_lower_like(name: Seq<char>, s: Seq<char>)
    requires
        forall|i: int| 0 <= i < s.len() ==> !('A' <= #[trigger] s[i] <= 'Z'),
    ensures
        lower(name) == s <==> name.len() == s.len() && forall|i: int|
            0 <= i < s.len() ==> (#[trigger] name[i] == s[i] || 'A' <= name[i] <= 'Z'
                && name[i] as int + 32 == s[i] as int),
{
    if lower(name) == s {
        assert forall|i: int| 0 <= i < s.len() implies (#[trigger] name[i] == s[i] || 'A'
            <= name[i] <= 'Z' && name[i] as int + 32 == s[i] as int) by {
            assert(lower(name)[i] == ascii_lower(name[i]));
        }
    }
    if name.len() == s.len() && forall|i: int|
        0 <= i < s.len() ==> (#[trigger] name[i] == s[i] || 'A' <= name[i] <= 'Z' && name[i] as int
            + 32 == s[i] as int) {
        assert forall|i: int| 0 <= i < s.len() implies lower(name)[i] == s[i] by {
            assert(name[i] == s[i] || 'A' <= name[i] <= 'Z' && name[i] as int + 32 == s[i] as int);
            assert(!('A' <= s[i] <= 'Z'));
        }
        assert(lower(name) =~= s);
    }
}

/// Letters A to Z are put in lower case one by one, and nothing else is changed.
pub proof fn law_lower_case(s: Seq<char>, i: int)
    ensures
        lower(s).len() == s.len(),
        0 <= i < s.len() ==> (if 'A' <= s[i] <= 'Z' {
            lower(s)[i] as int == s[i] as int + 32
        } else {
            lower(s)[i] == s[i]
        }),
{
}

} // verus!
