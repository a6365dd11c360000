//! Text: the string operations that the rest of the library is built on, each
//! stated over sequences of characters.

use vstd::prelude::*;
use vstd::string::*;
use vstd::utf8::*;

verus! {

/// [`String::push`] appends one character to the end of the string.
pub assume_specification[ String::push ](s: &mut String, c: char)
    ensures
        final(s)@ == old(s)@.push(c),
;

/// Two strings are equal when they hold the same characters.
pub fn str_eq(a: &str, b: &str) -> (r: bool)
    ensures
        r == (a@ == b@),
{
    let x: &[u8] = a.as_bytes();
    let y: &[u8] = b.as_bytes();
    proof {
        encode_utf8_decode_utf8(a@);
        encode_utf8_decode_utf8(b@);
    }
    if x.len() != y.len() {
        return false;
    }
    let mut i: usize = 0;
    while i < x.len()
        invariant
            x@ == a.spec_bytes(),
            y@ == b.spec_bytes(),
            x@.len() == y@.len(),
            i <= x@.len(),
            forall|j: int| 0 <= j < i ==> x@[j] == y@[j],
        decreases x@.len() - i,
    {
        if x[i] != y[i] {
            return false;
        }
        i = i + 1;
    }
    assert(x@ =~= y@);
    true
}

/// The characters of a string, in order.
pub fn chars_of(s: &str) -> (r: Vec<char>)
    ensures
        r@ == s@,
{
    let mut out: Vec<char> = Vec::new();
    for c in it: s.chars()
        invariant
            it.seq() == s@,
            out@ == s@.take(it.index() as int),
    {
        out.push(c);
    }
    out
}

/// Every character has a code within the range of Unicode.
pub proof fn lemma_char_range(c: char)
    ensures
        0 <= c as int <= 0x10_ffff,
{
}

/// The characters from `from` up to, not including, `to`, as a string.
pub fn text_of(chars: &Vec<char>, from: usize, to: usize) -> (r: String)
    requires
        from <= to <= chars@.len(),
    ensures
        r@ == chars@.subrange(from as int, to as int),
{
    let mut out = String::new();
    let mut i: usize = from;
    while i < to
        invariant
            from <= i <= to <= chars@.len(),
            out@ == chars@.subrange(from as int, i as int),
        decreases to - i,
    {
        out.push(chars[i]);
        i = i + 1;
    }
    out
}

/// Two strings, one after the other.
pub fn concat2(a: &str, b: &str) -> (r: String)
    ensures
        r@ == a@ + b@,
{
    let mut out = a.to_owned();
    out.append(b);
    out
}

/// Three strings, one after the other.
pub fn concat3(a: &str, b: &str, c: &str) -> (r: String)
    ensures
        r@ == a@ + b@ + c@,
{
    let mut out = a.to_owned();
    out.append(b);
    out.append(c);
    out
}

// ---- splitting ----

/// What stands before and after the first `sep`, if there is one.
pub open spec fn split_first(s: Seq<char>, sep: char) -> Option<(Seq<char>, Seq<char>)> {
    match s.index_of_first(sep) {
        Some(i) => Some((s.take(i), s.skip(i + 1))),
        None => None,
    }
}

/// What stands before and after the last `sep`, if there is one.
pub open spec fn split_last(s: Seq<char>, sep: char) -> Option<(Seq<char>, Seq<char>)> {
    match s.index_of_last(sep) {
        Some(i) => Some((s.take(i), s.skip(i + 1))),
        None => None,
    }
}

/// The pieces between the separators, one more of them than there are separators.
pub open spec fn fields(s: Seq<char>, sep: char) -> Seq<Seq<char>>
    decreases s.len(),
{
    match s.index_of_first(sep) {
        Some(i) => {
            proof {
                s.index_of_first_ensures(sep);
            }
            seq![s.take(i)] + fields(s.skip(i + 1), sep)
        },
        None => seq![s],
    }
}

/// Whatever index holds `sep` with none of it before is the first.
pub proof fn lemma_first_index(s: Seq<char>, sep: char, i: int)
    requires
        0 <= i < s.len(),
        s[i] == sep,
        forall|j: int| 0 <= j < i ==> s[j] != sep,
    ensures
        s.index_of_first(sep) == Some(i),
{
    s.index_of_first_ensures(sep);
    assert(s.contains(sep));
}

/// Whatever index holds `sep` with none of it behind is the last.
pub proof fn lemma_last_index(s: Seq<char>, sep: char, i: int)
    requires
        0 <= i < s.len(),
        s[i] == sep,
        forall|j: int| i < j < s.len() ==> s[j] != sep,
    ensures
        s.index_of_last(sep) == Some(i),
{
    s.index_of_last_ensures(sep);
    assert(s.contains(sep));
}

/// Splits at the first `sep`.
pub fn split_once(s: &str, sep: char) -> (r: Option<(String, String)>)
    ensures
        match r {
            Some((head, tail)) => split_first(s@, sep) == Some((head@, tail@)),
            None => split_first(s@, sep) is None,
        },
{
    let chars = chars_of(s);
    let mut i: usize = 0;
    while i < chars.len()
        invariant
            i <= chars@.len(),
            chars@ == s@,
            forall|j: int| 0 <= j < i ==> chars@[j] != sep,
        decreases chars@.len() - i,
    {
        if chars[i] == sep {
            proof {
                lemma_first_index(s@, sep, i as int);
            }
            return Some((text_of(&chars, 0, i), text_of(&chars, i + 1, chars.len())));
        }
        i = i + 1;
    }
    proof {
        s@.index_of_first_ensures(sep);
    }
    None
}

/// Splits at the last `sep`.
pub fn rsplit_once(s: &str, sep: char) -> (r: Option<(String, String)>)
    ensures
        match r {
            Some((head, tail)) => split_last(s@, sep) == Some((head@, tail@)),
            None => split_last(s@, sep) is None,
        },
{
    let chars = chars_of(s);
    let mut i: usize = chars.len();
    while i > 0
        invariant
            i <= chars@.len(),
            chars@ == s@,
            forall|j: int| i <= j < chars@.len() ==> chars@[j] != sep,
        decreases i,
    {
        i = i - 1;
        if chars[i] == sep {
            proof {
                lemma_last_index(s@, sep, i as int);
            }
            return Some((text_of(&chars, 0, i), text_of(&chars, i + 1, chars.len())));
        }
    }
    proof {
        s@.index_of_last_ensures(sep);
    }
    None
}

/// The texts of a list.
pub open spec fn texts(list: Seq<String>) -> Seq<Seq<char>> {
    list.map_values(|s: String| s@)
}

/// The text of a string, if there is one.
pub open spec fn opt_text(s: Option<String>) -> Option<Seq<char>> {
    match s {
        Some(s) => Some(s@),
        None => None,
    }
}

/// A copy of a text, if there is one.
pub fn owned(s: Option<&str>) -> (r: Option<String>)
    ensures
        opt_text(r) == match s {
            Some(s) => Some(s@),
            None => None,
        },
{
    match s {
        Some(s) => Some(s.to_owned()),
        None => None,
    }
}

/// Splits at every `sep`.
pub fn split_all(s: &str, sep: char) -> (r: Vec<String>)
    ensures
        texts(r@) == fields(s@, sep),
{
    let chars = chars_of(s);
    let mut out: Vec<String> = Vec::new();
    let mut start: usize = 0;
    let mut i: usize = 0;
    assert(s@.skip(0) =~= s@);
    assert(texts(out@) + fields(s@.skip(0), sep) =~= fields(s@, sep));
    while i < chars.len()
        invariant
            start <= i <= chars@.len(),
            chars@ == s@,
            forall|j: int| start <= j < i ==> chars@[j] != sep,
            texts(out@) + fields(s@.skip(start as int), sep) == fields(s@, sep),
        decreases chars@.len() - i,
    {
        if chars[i] == sep {
            let piece = text_of(&chars, start, i);
            proof {
                let rest = s@.skip(start as int);
                lemma_first_index(rest, sep, i - start);
                assert(rest.take(i - start) =~= piece@);
                assert(rest.skip(i - start + 1) =~= s@.skip(i + 1));
                assert(texts(out@.push(piece)) =~= texts(out@).push(piece@));
                assert(texts(out@) + (seq![piece@] + fields(s@.skip(i + 1), sep)) =~= texts(
                    out@.push(piece),
                ) + fields(s@.skip(i + 1), sep));
            }
            out.push(piece);
            start = i + 1;
        }
        i = i + 1;
    }
    let piece = text_of(&chars, start, chars.len());
    proof {
        let rest = s@.skip(start as int);
        rest.index_of_first_ensures(sep);
        assert(rest =~= piece@);
        assert(texts(out@) + seq![piece@] =~= texts(out@.push(piece)));
    }
    out.push(piece);
    out
}

/// A list joined with `sep` between its items.
pub open spec fn joined(list: Seq<Seq<char>>, sep: Seq<char>) -> Seq<char>
    decreases list.len(),
{
    if list.len() == 0 {
        Seq::empty()
    } else if list.len() == 1 {
        list[0]
    } else {
        joined(list.drop_last(), sep) + sep + list.last()
    }
}

/// Joins a list with `sep` between its items.
pub fn join(list: &Vec<String>, sep: &str) -> (r: String)
    ensures
        r@ == joined(texts(list@), sep@),
{
    let mut out = String::new();
    let mut i: usize = 0;
    while i < list.len()
        invariant
            i <= list@.len(),
            out@ == joined(texts(list@).take(i as int), sep@),
        decreases list@.len() - i,
    {
        proof {
            assert(texts(list@).take(i + 1).drop_last() =~= texts(list@).take(i as int));
        }
        if i > 0 {
            out.append(sep);
        }
        out.append(list[i].as_str());
        proof {
            if i == 0 {
                assert(Seq::<char>::empty() + list@[0]@ =~= list@[0]@);
            }
        }
        i = i + 1;
    }
    assert(texts(list@).take(i as int) =~= texts(list@));
    out
}

// ---- white space ----

/// The characters with the Unicode property `White_Space`.
pub open spec fn white_space(c: char) -> bool {
    ||| '\u{9}' <= c <= '\u{d}'
    ||| c == '\u{20}'
    ||| c == '\u{85}'
    ||| c == '\u{a0}'
    ||| c == '\u{1680}'
    ||| '\u{2000}' <= c <= '\u{200a}'
    ||| c == '\u{2028}'
    ||| c == '\u{2029}'
    ||| c == '\u{202f}'
    ||| c == '\u{205f}'
    ||| c == '\u{3000}'
}

/// Whether a character has the Unicode property `White_Space`.
pub fn is_white_space(c: char) -> (r: bool)
    ensures
        r == white_space(c),
{
    ('\u{9}' <= c && c <= '\u{d}') || c == '\u{20}' || c == '\u{85}' || c == '\u{a0}' || c
        == '\u{1680}' || ('\u{2000}' <= c && c <= '\u{200a}') || c == '\u{2028}' || c == '\u{2029}'
        || c == '\u{202f}' || c == '\u{205f}' || c == '\u{3000}'
}

/// The text without its leading white space.
pub open spec fn trimmed_start(s: Seq<char>) -> Seq<char>
    decreases s.len(),
{
    if s.len() > 0 && white_space(s[0]) {
        trimmed_start(s.skip(1))
    } else {
        s
    }
}

/// The text without its trailing white space.
pub open spec fn trimmed_end(s: Seq<char>) -> Seq<char>
    decreases s.len(),
{
    if s.len() > 0 && white_space(s.last()) {
        trimmed_end(s.drop_last())
    } else {
        s
    }
}

/// The text without the white space around it.
pub open spec fn trimmed(s: Seq<char>) -> Seq<char> {
    trimmed_end(trimmed_start(s))
}

/// Cuts the white space off both ends.
pub fn trim(s: &str) -> (r: String)
    ensures
        r@ == trimmed(s@),
{
    let chars = chars_of(s);
    let mut from: usize = 0;
    assert(s@.skip(0) =~= s@);
    while from < chars.len() && is_white_space(chars[from])
        invariant
            from <= chars@.len(),
            chars@ == s@,
            trimmed_start(s@.skip(from as int)) == trimmed_start(s@),
        decreases chars@.len() - from,
    {
        assert(s@.skip(from as int).skip(1) =~= s@.skip(from + 1));
        from = from + 1;
    }
    let ghost left = s@.skip(from as int);
    assert(trimmed_start(s@) == left);
    let mut to: usize = chars.len();
    assert(left =~= s@.subrange(from as int, to as int));
    while to > from && is_white_space(chars[to - 1])
        invariant
            from <= to <= chars@.len(),
            chars@ == s@,
            trimmed_end(s@.subrange(from as int, to as int)) == trimmed_end(left),
        decreases to,
    {
        assert(s@.subrange(from as int, to as int).drop_last() =~= s@.subrange(
            from as int,
            to - 1,
        ));
        to = to - 1;
    }
    text_of(&chars, from, to)
}

// ---- comma separated lists ----

/// The items of a comma separated list: the white space around each is cut off,
/// and empty ones are left out.
pub open spec fn comma_items(s: Seq<char>) -> Seq<Seq<char>> {
    fields(s, ',').map_values(|piece: Seq<char>| trimmed(piece)).filter(
        |piece: Seq<char>| piece.len() > 0,
    )
}

/// Splits a comma separated list into its items.
pub fn split_commas(s: &str) -> (r: Vec<String>)
    ensures
        texts(r@) == comma_items(s@),
{
    let pieces = split_all(s, ',');
    let mut out: Vec<String> = Vec::new();
    let ghost all = fields(s@, ',').map_values(|piece: Seq<char>| trimmed(piece));
    let ghost keep = |piece: Seq<char>| piece.len() > 0;
    let mut i: usize = 0;
    proof {
        reveal(Seq::filter);
        assert(texts(out@) =~= all.take(0).filter(keep));
    }
    while i < pieces.len()
        invariant
            i <= pieces@.len(),
            texts(pieces@) == fields(s@, ','),
            all == fields(s@, ',').map_values(|piece: Seq<char>| trimmed(piece)),
            keep == (|piece: Seq<char>| piece.len() > 0),
            texts(out@) == all.take(i as int).filter(keep),
        decreases pieces@.len() - i,
    {
        let item = trim(pieces[i].as_str());
        proof {
            reveal(Seq::filter);
            assert(texts(pieces@)[i as int] == pieces@[i as int]@);
            assert(all.take(i + 1).drop_last() =~= all.take(i as int));
            assert(texts(out@.push(item)) =~= texts(out@).push(item@));
        }
        if item.as_str().unicode_len() > 0 {
            out.push(item);
        }
        i = i + 1;
    }
    assert(all.take(i as int) =~= all);
    out
}

/// Keeping what all have keeps everything.
pub proof fn lemma_filter_keeps_all<A>(s: Seq<A>, keep: spec_fn(A) -> bool)
    requires
        forall|i: int| 0 <= i < s.len() ==> keep(#[trigger] s[i]),
    ensures
        s.filter(keep) == s,
    decreases s.len(),
{
    reveal(Seq::filter);
    if s.len() > 0 {
        lemma_filter_keeps_all(s.drop_last(), keep);
        assert(s.drop_last().push(s.last()) =~= s);
    }
}

/// What is kept was there.
proof fn lemma_filter_from<A>(s: Seq<A>, keep: spec_fn(A) -> bool, i: int) -> (j: int)
    requires
        0 <= i < s.filter(keep).len(),
    ensures
        0 <= j < s.len(),
        s[j] == s.filter(keep)[i],
        keep(s[j]),
    decreases s.len(),
{
    reveal(Seq::filter);
    let init = s.drop_last();
    if i < init.filter(keep).len() {
        lemma_filter_from(init, keep, i)
    } else {
        s.len() - 1
    }
}

/// Joining two texts with a separator joins their pieces.
proof fn lemma_fields_concat(a: Seq<char>, sep: char, b: Seq<char>)
    ensures
        fields(a + seq![sep] + b, sep) == fields(a, sep) + fields(b, sep),
    decreases a.len(),
{
    let whole = a + seq![sep] + b;
    a.index_of_first_ensures(sep);
    match a.index_of_first(sep) {
        Some(i) => {
            lemma_first_index(whole, sep, i);
            lemma_fields_concat(a.skip(i + 1), sep, b);
            assert(whole.take(i) =~= a.take(i));
            assert(whole.skip(i + 1) =~= a.skip(i + 1) + seq![sep] + b);
            assert(seq![a.take(i)] + (fields(a.skip(i + 1), sep) + fields(b, sep)) =~= seq![
                a.take(i),
            ] + fields(a.skip(i + 1), sep) + fields(b, sep));
        },
        None => {
            assert forall|j: int| 0 <= j < a.len() implies whole[j] != sep by {
                assert(whole[j] == a[j]);
                assert(a.contains(a[j]));
            }
            lemma_first_index(whole, sep, a.len() as int);
            assert(whole.take(a.len() as int) =~= a);
            assert(whole.skip(a.len() as int + 1) =~= b);
        },
    }
}

/// Splitting undoes joining, where no item holds the separator.
pub proof fn law_split_joined(list: Seq<Seq<char>>, sep: char)
    requires
        list.len() > 0,
        forall|i: int| 0 <= i < list.len() ==> !(#[trigger] list[i]).contains(sep),
    ensures
        fields(joined(list, seq![sep]), sep) == list,
    decreases list.len(),
{
    list.last().index_of_first_ensures(sep);
    assert(!list[list.len() - 1].contains(sep));
    assert(fields(list.last(), sep) =~= seq![list.last()]);
    if list.len() == 1 {
        assert(list =~= seq![list[0]]);
    } else {
        let init = list.drop_last();
        assert forall|i: int| 0 <= i < init.len() implies !(#[trigger] init[i]).contains(sep) by {
            assert(init[i] == list[i]);
        }
        law_split_joined(init, sep);
        lemma_fields_concat(joined(init, seq![sep]), sep, list.last());
        assert(init + seq![list.last()] =~= list);
    }
}

/// No piece holds the separator.
proof fn lemma_fields_clean(s: Seq<char>, sep: char, i: int)
    requires
        0 <= i < fields(s, sep).len(),
    ensures
        !fields(s, sep)[i].contains(sep),
    decreases s.len(),
{
    s.index_of_first_ensures(sep);
    match s.index_of_first(sep) {
        Some(at) => {
            if i == 0 {
                let head = s.take(at);
                if head.contains(sep) {
                    let j = choose|j: int| 0 <= j < head.len() && head[j] == sep;
                    assert(s[j] == sep);
                }
            } else {
                lemma_fields_clean(s.skip(at + 1), sep, i - 1);
            }
        },
        None => {},
    }
}

/// Neither end of the text is white space.
pub open spec fn tight(s: Seq<char>) -> bool {
    s.len() > 0 ==> !white_space(s[0]) && !white_space(s.last())
}

/// Cutting white space off leaves tight text alone.
pub proof fn lemma_tight(s: Seq<char>)
    requires
        tight(s),
    ensures
        trimmed(s) == s,
{
}

proof fn lemma_trimmed_start(s: Seq<char>)
    ensures
        trimmed_start(s).len() > 0 ==> !white_space(trimmed_start(s)[0]),
        forall|c: char| #[trigger] trimmed_start(s).contains(c) ==> s.contains(c),
    decreases s.len(),
{
    if s.len() > 0 && white_space(s[0]) {
        lemma_trimmed_start(s.skip(1));
        assert forall|c: char| #[trigger] trimmed_start(s).contains(c) implies s.contains(c) by {
            let j = choose|j: int| 0 <= j < s.skip(1).len() && s.skip(1)[j] == c;
            assert(s[j + 1] == c);
        }
    }
}

proof fn lemma_trimmed_end(s: Seq<char>)
    ensures
        trimmed_end(s).len() > 0 ==> !white_space(trimmed_end(s).last()) && trimmed_end(s)[0]
            == s[0],
        forall|c: char| #[trigger] trimmed_end(s).contains(c) ==> s.contains(c),
    decreases s.len(),
{
    if s.len() > 0 && white_space(s.last()) {
        lemma_trimmed_end(s.drop_last());
        assert forall|c: char| #[trigger] trimmed_end(s).contains(c) implies s.contains(c) by {
            let j = choose|j: int| 0 <= j < s.drop_last().len() && s.drop_last()[j] == c;
            assert(s[j] == c);
        }
    }
}

/// The items of a comma separated list are not empty, are tight, and hold no
/// comma.
pub proof fn law_comma_items(s: Seq<char>, i: int)
    requires
        0 <= i < comma_items(s).len(),
    ensures
        comma_items(s)[i].len() > 0,
        tight(comma_items(s)[i]),
        !comma_items(s)[i].contains(','),
{
    let pieces = fields(s, ',');
    let all = pieces.map_values(|piece: Seq<char>| trimmed(piece));
    let j = lemma_filter_from(all, |piece: Seq<char>| piece.len() > 0, i);
    lemma_fields_clean(s, ',', j);
    lemma_trimmed_start(pieces[j]);
    lemma_trimmed_end(trimmed_start(pieces[j]));
}

/// Reading a joined list gives its items back, where they are not empty, are
/// tight, and hold no comma.
pub proof fn law_comma_items_joined(list: Seq<Seq<char>>)
    requires
        list.len() > 0,
        forall|i: int|
            0 <= i < list.len() ==> (#[trigger] list[i]).len() > 0 && tight(list[i])
                && !list[i].contains(','),
    ensures
        comma_items(joined(list, seq![','])) == list,
{
    law_split_joined(list, ',');
    assert forall|i: int| 0 <= i < list.len() implies trimmed(#[trigger] list[i]) == list[i] by {
        lemma_tight(list[i]);
    }
    assert(list.map_values(|piece: Seq<char>| trimmed(piece)) =~= list);
    lemma_filter_keeps_all(list, |piece: Seq<char>| piece.len() > 0);
}

/// A text is cut at the first separator exactly where it holds one: what is before it
/// holds none, and the two parts with a separator between them are the text.
pub proof fn law_split_first(s: Seq<char>, sep: char)
    ensures
        match split_first(s, sep) {
            Some((head, tail)) => s == head + seq![sep] + tail && !head.contains(sep),
            None => !s.contains(sep),
        },
{
    s.index_of_first_ensures(sep);
    if let Some((head, tail)) = split_first(s, sep) {
        assert(s =~= head + seq![sep] + tail);
        if head.contains(sep) {
            let j = choose|j: int| 0 <= j < head.len() && head[j] == sep;
            assert(s[j] == sep);
        }
    }
}

/// A text is cut at the last separator exactly where it holds one: what is behind it
/// holds none, and the two parts with a separator between them are the text.
pub proof fn law_split_last(s: Seq<char>, sep: char)
    ensures
        match split_last(s, sep) {
            Some((head, tail)) => s == head + seq![sep] + tail && !tail.contains(sep),
            None => !s.contains(sep),
        },
{
    s.index_of_last_ensures(sep);
    if let Some((head, tail)) = split_last(s, sep) {
        assert(s =~= head + seq![sep] + tail);
        if tail.contains(sep) {
            let j = choose|j: int| 0 <= j < tail.len() && tail[j] == sep;
            assert(s[head.len() + 1 + j] == sep);
        }
    }
}

proof fn lemma_joined_front(first: Seq<char>, rest: Seq<Seq<char>>, sep: Seq<char>)
    requires
        rest.len() > 0,
    ensures
        joined(seq![first] + rest, sep) == first + sep + joined(rest, sep),
    decreases rest.len(),
{
    let all = seq![first] + rest;
    if rest.len() == 1 {
        assert(all.drop_last() =~= seq![first]);
        assert(joined(seq![first], sep) == first);
    } else {
        lemma_joined_front(first, rest.drop_last(), sep);
        assert(all.drop_last() =~= seq![first] + rest.drop_last());
        assert(joined(all, sep) =~= first + sep + joined(rest, sep));
    }
}

/// Joining undoes splitting: the pieces of a text with the separator between them are the
/// text, there is at least one, and none holds the separator.
pub proof fn law_joined_split(s: Seq<char>, sep: char)
    ensures
        joined(fields(s, sep), seq![sep]) == s,
        fields(s, sep).len() > 0,
        forall|i: int| 0 <= i < fields(s, sep).len() ==> !(#[trigger] fields(s, sep)[i]).contains(sep),
    decreases s.len(),
{
    s.index_of_first_ensures(sep);
    if let Some(i) = s.index_of_first(sep) {
        law_joined_split(s.skip(i + 1), sep);
        lemma_joined_front(s.take(i), fields(s.skip(i + 1), sep), seq![sep]);
        assert(s.take(i) + seq![sep] + s.skip(i + 1) =~= s);
    }
    assert forall|i: int| 0 <= i < fields(s, sep).len() implies !(#[trigger] fields(
        s,
        sep,
    )[i]).contains(sep) by {
        lemma_fields_clean(s, sep, i);
    }
}

/// Cutting the white space off a text leaves it as it is but for the white space around
/// it.
pub proof fn law_trimmed(s: Seq<char>)
    ensures
        tight(trimmed(s)),
        exists|i: int, j: int|
            0 <= i <= j <= s.len() && trimmed(s) == #[trigger] s.subrange(i, j) && (forall|k: int|
                0 <= k < i ==> white_space(#[trigger] s[k])) && (forall|k: int|
                j <= k < s.len() ==> white_space(#[trigger] s[k])),
{
    let i = lemma_start_cut(s);
    let t = trimmed_start(s);
    let j = lemma_end_cut(t);
    assert(trimmed(s) =~= s.subrange(i, i + j));
    assert forall|k: int| i + j <= k < s.len() implies white_space(#[trigger] s[k]) by {
        assert(t[k - i] == s[k]);
    }
    if j > 0 {
        assert(trimmed(s)[0] == t[0]);
    }
}

proof fn lemma_start_cut(s: Seq<char>) -> (i: int)
    ensures
        0 <= i <= s.len(),
        trimmed_start(s) == s.skip(i),
        forall|k: int| 0 <= k < i ==> white_space(#[trigger] s[k]),
        i < s.len() ==> !white_space(s[i]),
    decreases s.len(),
{
    if s.len() > 0 && white_space(s[0]) {
        let i = lemma_start_cut(s.skip(1));
        assert(s.skip(1).skip(i) =~= s.skip(i + 1));
        assert forall|k: int| 0 <= k < i + 1 implies white_space(#[trigger] s[k]) by {
            if k > 0 {
                assert(s.skip(1)[k - 1] == s[k]);
            }
        }
        i + 1
    } else {
        assert(s.skip(0) =~= s);
        0
    }
}

proof fn lemma_end_cut(s: Seq<char>) -> (j: int)
    ensures
        0 <= j <= s.len(),
        trimmed_end(s) == s.take(j),
        forall|k: int| j <= k < s.len() ==> white_space(#[trigger] s[k]),
        j > 0 ==> !white_space(s[j - 1]),
    decreases s.len(),
{
    if s.len() > 0 && white_space(s.last()) {
        let init = s.drop_last();
        let j = lemma_end_cut(init);
        assert(init.take(j) =~= s.take(j));
        assert forall|k: int| j <= k < s.len() implies white_space(#[trigger] s[k]) by {
            if k < init.len() {
                assert(init[k] == s[k]);
            }
        }
        if j > 0 {
            assert(init[j - 1] == s[j - 1]);
        }
        j
    } else {
        assert(s.take(s.len() as int) =~= s);
        s.len() as int
    }
}

/// White space is what Unicode calls so: of ASCII the characters from the tab to the
/// carriage return and the blank, and nineteen others.
pub proof fn law_white_space(c: char)
    ensures
        ({
            let code = c as int;
            white_space(c) <==> {
                ||| 9 <= code <= 13
                ||| code == 32
                ||| code == 0x85 || code == 0xa0
                ||| code == 0x1680
                ||| 0x2000 <= code <= 0x200a
                ||| code == 0x2028 || code == 0x2029
                ||| code == 0x202f || code == 0x205f
                ||| code == 0x3000
            }
        }),
{
}

/// The items of a list are read piece by piece: a piece with nothing but white space adds
/// none, any other one item, without the white space around it.
pub proof fn law_comma_items_one_by_one(s: Seq<char>, piece: Seq<char>)
    requires
        !piece.contains(','),
    ensures
        comma_items(piece) == (if trimmed(piece).len() == 0 {
            Seq::empty()
        } else {
            seq![trimmed(piece)]
        }),
        comma_items(s + seq![','] + piece) == comma_items(s) + comma_items(piece),
{
    let keep = |p: Seq<char>| p.len() > 0;
    let cut = |p: Seq<char>| trimmed(p);
    reveal(Seq::filter);
    piece.index_of_first_ensures(',');
    assert(fields(piece, ',') =~= seq![piece]);
    lemma_fields_concat(s, ',', piece);
    let before = fields(s, ',').map_values(cut);
    let one = seq![piece].map_values(cut);
    assert(one =~= seq![trimmed(piece)]);
    assert(one.drop_last() =~= Seq::empty());
    assert((fields(s, ',') + seq![piece]).map_values(cut) =~= before.push(trimmed(piece)));
    assert(before.push(trimmed(piece)).drop_last() =~= before);
    assert(Seq::<Seq<char>>::empty().filter(keep) =~= Seq::empty());
    assert(one.last() == trimmed(piece));
    assert(one.filter(keep) =~= if trimmed(piece).len() == 0 {
        Seq::empty()
    } else {
        seq![trimmed(piece)]
    });
    assert(before.push(trimmed(piece)).filter(keep) =~= before.filter(keep) + one.filter(keep));
}

/// A list is joined item by item.
pub proof fn law_joined_one_by_one(list: Seq<Seq<char>>, item: Seq<char>, sep: Seq<char>)
    ensures
        joined(Seq::empty(), sep).len() == 0,
        joined(list.push(item), sep) == if list.len() == 0 {
            item
        } else {
            joined(list, sep) + sep + item
        },
{
    assert(list.push(item).drop_last() =~= list);
}

/// The models of texts are the texts, in their order.
pub proof fn law_texts(list: Seq<String>, s: Option<String>, i: int)
    ensures
        texts(list).len() == list.len(),
        0 <= i < list.len() ==> texts(list)[i] == list[i]@,
        match s {
            Some(t) => opt_text(s) == Some(t@),
            None => opt_text(s) is None,
        },
{
}

} // verus!
