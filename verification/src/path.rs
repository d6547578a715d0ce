//! The paths of objects, as the object store writes them.

use crate::ordmap::Key;
use crate::text::{chars_of, digit, push_char};
use object_store::path::Path;
use vstd::prelude::*;
use vstd::string::*;
use vstd::utf8::{encode_utf8, encode_utf8_decode_utf8, is_ascii_chars, is_ascii_chars_encode_utf8};

verus! {

/// A byte that a part of a path holds as it is: what ASCII prints, without what a store
/// advises against in a key and without the delimiter.
pub open spec fn is_kept(byte: u8) -> bool {
    &&& 0x20 <= byte < 0x7e
    &&& byte != '"' as u8
    &&& byte != '#' as u8
    &&& byte != '%' as u8
    &&& byte != '*' as u8
    &&& byte != '/' as u8
    &&& byte != '<' as u8
    &&& byte != '>' as u8
    &&& byte != '?' as u8
    &&& !('[' as u8 <= byte <= '^' as u8)
    &&& byte != '`' as u8
    &&& !('{' as u8 <= byte <= '}' as u8)
}

/// A digit to the base of sixteen, in upper case.
pub open spec fn upper_hex(value: nat) -> char {
    if value < 10 {
        digit(value)
    } else {
        ('A' as u32 + value - 10) as char
    }
}

/// A byte as a part of a path holds it: as it is, or behind a percent sign the two
/// digits of its number.
pub open spec fn encoded_byte(byte: u8) -> Seq<char> {
    if is_kept(byte) {
        seq![byte as char]
    } else {
        seq!['%', upper_hex((byte / 16) as nat), upper_hex((byte % 16) as nat)]
    }
}

/// Bytes as a part of a path holds them.
pub open spec fn encoded(bytes: Seq<u8>) -> Seq<char>
    decreases bytes.len(),
{
    if bytes.len() == 0 {
        Seq::empty()
    } else {
        encoded_byte(bytes[0]) + encoded(bytes.skip(1))
    }
}

/// The part of a path that a text makes: its bytes in UTF-8, encoded. A dot and two
/// dots, which would stand for a directory and its parent, are encoded too.
pub open spec fn part_of(text: Seq<char>) -> Seq<char> {
    if text == seq!['.'] {
        seq!['%', '2', 'E']
    } else if text == seq!['.', '.'] {
        seq!['%', '2', 'E', '%', '2', 'E']
    } else {
        encoded(encode_utf8(text))
    }
}

/// The parts of a path that texts make. An empty one makes none.
pub open spec fn encoded_parts(texts: Seq<Seq<char>>) -> Seq<Seq<char>>
    decreases texts.len(),
{
    if texts.len() == 0 {
        Seq::empty()
    } else if texts[0].len() == 0 {
        encoded_parts(texts.skip(1))
    } else {
        seq![part_of(texts[0])] + encoded_parts(texts.skip(1))
    }
}

/// The parts of the path of a text: what stands between its delimiters makes one each.
pub open spec fn names_of(text: Seq<char>) -> Seq<Seq<char>> {
    encoded_parts(parts_of(text))
}

/// The path of a text.
pub open spec fn path_of(text: Seq<char>) -> Seq<char> {
    joined(names_of(text))
}

/// The path of a text: `object_store::path::Path::from`, which splits the text at its
/// delimiters, drops the empty parts, percent-encodes what it holds unsafe in a part,
/// and joins the parts by delimiters.
#[verifier::external_body]
pub(crate) fn path_from(text: &str) -> (path: String)
    ensures
        path@ == path_of(text@),
{
    String::from(Path::from(text))
}

/// The path of parts: `object_store::path::Path::from_iter`, which takes each text as
/// one part, whatever it holds. It drops the empty ones, percent-encodes what it holds
/// unsafe in a part, the delimiter among it, and joins the parts by delimiters.
#[verifier::external_body]
pub(crate) fn path_from_parts(texts: &Vec<String>) -> (path: String)
    ensures
        path@ == joined(encoded_parts(texts_view(texts@))),
{
    String::from(Path::from_iter(texts.iter().map(String::as_str)))
}

/// A character that a path holds as it is.
pub open spec fn plain_char(c: char) -> bool {
    c == '/' || c <= '\u{7f}' && is_kept(c as u8)
}

/// Whether a part may begin at a place of a text: neither is it empty, nor one of the
/// dots that stand for a directory and its parent.
pub open spec fn begins_part(text: Seq<char>, at: int) -> bool {
    &&& text[at] != '/'
    &&& text[at] == '.' ==> at + 1 < text.len() && text[at + 1] != '/'
    &&& text[at] == '.' && text[at + 1] == '.' ==> at + 2 < text.len() && text[at + 2] != '/'
}

/// A text of plain characters, in parts that are neither empty nor the dots that stand
/// for a directory and its parent.
pub open spec fn is_plain(text: Seq<char>) -> bool {
    &&& text.len() > 0
    &&& begins_part(text, 0)
    &&& text.last() != '/'
    &&& forall|i: int| 0 <= i < text.len() ==> plain_char(#[trigger] text[i])
    &&& forall|i: int|
        0 < i < text.len() && text[i - 1] == '/' ==> #[trigger] begins_part(text, i)
}

/// A text without the delimiters that it ends in.
pub open spec fn stem(text: Seq<char>) -> Seq<char>
    decreases text.len(),
{
    if text.len() > 0 && text.last() == '/' {
        stem(text.drop_last())
    } else {
        text
    }
}

proof fn lemma_encoded_kept(bytes: Seq<u8>)
    requires
        forall|i: int| 0 <= i < bytes.len() ==> is_kept(#[trigger] bytes[i]),
    ensures
        encoded(bytes).len() == bytes.len(),
        forall|i: int| 0 <= i < bytes.len() ==> #[trigger] encoded(bytes)[i] == bytes[i] as char,
    decreases bytes.len(),
{
    if bytes.len() > 0 {
        let rest = bytes.skip(1);
        assert(is_kept(bytes[0]));
        assert forall|i: int| 0 <= i < rest.len() implies is_kept(#[trigger] rest[i]) by {
            assert(rest[i] == bytes[i + 1]);
        }
        lemma_encoded_kept(rest);
        assert forall|i: int| 0 <= i < bytes.len() implies #[trigger] encoded(bytes)[i]
            == bytes[i] as char by {
            if i > 0 {
                assert(encoded(bytes)[i] == encoded(rest)[i - 1]);
                assert(rest[i - 1] == bytes[i]);
            }
        }
    }
}

proof fn lemma_char(c: char)
    ensures
        '\0' <= c,
{
}

/// A text of characters that a part holds as they are, and that is no dots, is its own
/// part.
pub proof fn lemma_own_part(text: Seq<char>)
    requires
        forall|i: int| 0 <= i < text.len() ==> plain_char(#[trigger] text[i]) && text[i] != '/',
        text != seq!['.'],
        text != seq!['.', '.'],
    ensures
        part_of(text) == text,
{
    let bytes = encode_utf8(text);
    assert(is_ascii_chars(text)) by {
        assert forall|i: int| 0 <= i < text.len() implies '\0' <= #[trigger] text[i] <= '\u{7f}' by {
            lemma_char(text[i]);
        }
    }
    is_ascii_chars_encode_utf8(text);
    assert forall|i: int| 0 <= i < bytes.len() implies is_kept(#[trigger] bytes[i]) by {
        assert(plain_char(text[i]));
    }
    lemma_encoded_kept(bytes);
    assert(encoded(bytes) =~= text) by {
        assert forall|i: int| 0 <= i < text.len() implies encoded(bytes)[i] == text[i] by {
            assert(plain_char(text[i]));
            assert(encoded(bytes)[i] == bytes[i] as char);
        }
    }
}

proof fn lemma_encoded_apart(a: Seq<u8>, b: Seq<u8>)
    requires
        encoded(a) == encoded(b),
    ensures
        a == b,
    decreases a.len(),
{
    if a.len() == 0 {
        if b.len() > 0 {
            assert(encoded(b) == encoded_byte(b[0]) + encoded(b.skip(1)));
            assert(encoded(b).len() > 0);
            assert(encoded(a).len() == 0);
        }
        assert(a =~= b);
    } else {
        assert(encoded(a) == encoded_byte(a[0]) + encoded(a.skip(1)));
        assert(encoded(a).len() > 0);
        if b.len() == 0 {
            assert(encoded(b).len() == 0);
        }
        let (x, y) = (encoded_byte(a[0]), encoded_byte(b[0]));
        let (p, q) = (encoded(a.skip(1)), encoded(b.skip(1)));
        assert((x + p)[0] == x[0] && (y + q)[0] == y[0]);
        assert(a[0] == b[0]) by {
            if !is_kept(a[0]) && !is_kept(b[0]) {
                assert((x + p)[1] == x[1] && (y + q)[1] == y[1]);
                assert((x + p)[2] == x[2] && (y + q)[2] == y[2]);
                assert(a[0] / 16 == b[0] / 16);
                assert(a[0] % 16 == b[0] % 16);
            }
        }
        assert(p =~= q) by {
            assert(p =~= (x + p).skip(x.len() as int));
            assert(q =~= (y + q).skip(y.len() as int));
        }
        lemma_encoded_apart(a.skip(1), b.skip(1));
        assert(a =~= seq![a[0]] + a.skip(1));
        assert(b =~= seq![b[0]] + b.skip(1));
    }
}

proof fn lemma_upper_hex(value: nat)
    requires
        value < 16,
    ensures
        upper_hex(value) == '2' ==> value == 2,
        upper_hex(value) == 'E' ==> value == 14,
{
}

proof fn lemma_no_encoded_dot(bytes: Seq<u8>)
    ensures
        encoded(bytes).len() >= 3 ==> encoded(bytes).take(3) != seq!['%', '2', 'E'],
{
    if encoded(bytes).len() >= 3 && encoded(bytes).take(3) == seq!['%', '2', 'E'] {
        let head = encoded(bytes).take(3);
        let first = bytes[0];
        let x = encoded_byte(first);
        let whole = x + encoded(bytes.skip(1));
        assert(encoded(bytes) == whole);
        assert(head[0] == whole[0] && head[1] == whole[1] && head[2] == whole[2]);
        assert(x.len() > 0);
        assert(whole[0] == x[0]);
        assert(!is_kept(first));
        assert(whole[1] == x[1] && whole[2] == x[2]);
        lemma_upper_hex((first / 16) as nat);
        lemma_upper_hex((first % 16) as nat);
        assert(first == 0x2e);
    }
}

/// Two texts that make the same part are the same: a part can be told from any other.
pub proof fn parts_tell_texts_apart(a: Seq<char>, b: Seq<char>)
    requires
        part_of(a) == part_of(b),
    ensures
        a == b,
{
    let dot = seq!['%', '2', 'E'];
    let dots = seq!['%', '2', 'E', '%', '2', 'E'];
    lemma_no_encoded_dot(encode_utf8(a));
    lemma_no_encoded_dot(encode_utf8(b));
    assert(dot.take(3) =~= dot);
    assert(dots.take(3) =~= dot);
    assert(dot.len() != dots.len());
    let special_a = a == seq!['.'] || a == seq!['.', '.'];
    let special_b = b == seq!['.'] || b == seq!['.', '.'];
    if !special_a && !special_b {
        lemma_encoded_apart(encode_utf8(a), encode_utf8(b));
        encode_utf8_decode_utf8(a);
        encode_utf8_decode_utf8(b);
    }
}

proof fn lemma_encoded_has_no_delimiter(bytes: Seq<u8>)
    ensures
        forall|i: int| 0 <= i < encoded(bytes).len() ==> #[trigger] encoded(bytes)[i] != '/',
        bytes.len() > 0 ==> encoded(bytes).len() > 0,
    decreases bytes.len(),
{
    if bytes.len() > 0 {
        let x = encoded_byte(bytes[0]);
        let rest = encoded(bytes.skip(1));
        lemma_encoded_has_no_delimiter(bytes.skip(1));
        assert forall|i: int| 0 <= i < encoded(bytes).len() implies #[trigger] encoded(bytes)[i]
            != '/' by {
            if i < x.len() {
                assert(encoded(bytes)[i] == x[i]);
            } else {
                assert(encoded(bytes)[i] == rest[i - x.len()]);
            }
        }
    }
}

/// A part holds no delimiter, and is empty only where the text is that makes it.
pub proof fn lemma_part(text: Seq<char>)
    ensures
        forall|i: int| 0 <= i < part_of(text).len() ==> #[trigger] part_of(text)[i] != '/',
        text.len() > 0 ==> part_of(text).len() > 0,
{
    lemma_encoded_has_no_delimiter(encode_utf8(text));
    if text.len() > 0 {
        encode_utf8_decode_utf8(text);
    }
}

/// The parts that texts make, one behind another.
pub proof fn lemma_encoded_parts_join(a: Seq<Seq<char>>, b: Seq<Seq<char>>)
    ensures
        encoded_parts(a + b) == encoded_parts(a) + encoded_parts(b),
    decreases a.len(),
{
    if a.len() == 0 {
        assert(a + b =~= b);
        assert(encoded_parts(a) + encoded_parts(b) =~= encoded_parts(b));
    } else {
        assert((a + b).skip(1) =~= a.skip(1) + b);
        lemma_encoded_parts_join(a.skip(1), b);
        assert(encoded_parts(a + b) =~= encoded_parts(a) + encoded_parts(b));
    }
}

/// The parts of the path of two texts with a delimiter between them are the parts of
/// the one and those of the other.
pub proof fn lemma_names_join(a: Seq<char>, b: Seq<char>)
    ensures
        names_of(a + seq!['/'] + b) == names_of(a) + names_of(b),
    decreases a.len(),
{
    let at = first_delimiter(a);
    lemma_first_delimiter_bound(a);
    if at < a.len() {
        let part = a.take(at);
        let rest = a.skip(at + 1);
        assert(a =~= part + seq!['/'] + rest);
        assert(a + seq!['/'] + b =~= part + seq!['/'] + (rest + seq!['/'] + b));
        assert forall|i: int| 0 <= i < part.len() implies #[trigger] part[i] != '/' by {
            assert(part[i] == a[i]);
        }
        lemma_first_part(part, rest + seq!['/'] + b);
        lemma_first_part(part, rest);
        lemma_names_join(rest, b);
        lemma_encoded_parts_join(seq![part], parts_of(rest + seq!['/'] + b));
        lemma_encoded_parts_join(seq![part], parts_of(rest));
        assert(names_of(a + seq!['/'] + b) =~= names_of(a) + names_of(b));
    } else {
        lemma_first_part(a, b);
        lemma_encoded_parts_join(seq![a], parts_of(b));
        if a.len() == 0 {
            assert(seq![a].skip(1) =~= Seq::<Seq<char>>::empty());
            assert(names_of(a) =~= Seq::<Seq<char>>::empty());
            assert(encoded_parts(seq![a]) =~= Seq::<Seq<char>>::empty());
        } else {
            assert(parts_of(a) =~= seq![a]);
        }
    }
}

/// Two lists of parts that are not empty, joined one behind the other.
pub proof fn lemma_joined(a: Seq<Seq<char>>, b: Seq<Seq<char>>)
    requires
        b.len() > 0,
    ensures
        a.len() > 0 ==> joined(a + b) == joined(a) + seq!['/'] + joined(b),
        a.len() == 0 ==> joined(a + b) == joined(b),
    decreases a.len(),
{
    if a.len() == 0 {
        assert(a + b =~= b);
    } else {
        assert((a + b).skip(1) =~= a.skip(1) + b);
        assert((a + b)[0] == a[0]);
        lemma_joined(a.skip(1), b);
        assert(joined(a + b) =~= joined(a) + seq!['/'] + joined(b));
    }
}

/// Parts that a path can hold: none is empty, and none holds a delimiter.
pub open spec fn are_parts(parts: Seq<Seq<char>>) -> bool {
    forall|k: int|
        0 <= k < parts.len() ==> (#[trigger] parts[k]).len() > 0 && !parts[k].contains('/')
}

/// The parts that texts make are parts that a path can hold.
pub proof fn lemma_are_parts(texts: Seq<Seq<char>>)
    ensures
        are_parts(encoded_parts(texts)),
    decreases texts.len(),
{
    if texts.len() > 0 {
        let rest = encoded_parts(texts.skip(1));
        lemma_are_parts(texts.skip(1));
        if texts[0].len() > 0 {
            lemma_part(texts[0]);
            let all = encoded_parts(texts);
            assert forall|k: int| 0 <= k < all.len() implies (#[trigger] all[k]).len() > 0
                && !all[k].contains('/') by {
                if k > 0 {
                    assert(all[k] == rest[k - 1]);
                }
            }
        }
    }
}

/// The parts of a path are those that were joined to make it.
pub proof fn parting_undoes_joining(parts: Seq<Seq<char>>)
    requires
        are_parts(parts),
    ensures
        parts_of(joined(parts)) == parts,
    decreases parts.len(),
{
    if parts.len() > 0 {
        let first = parts[0];
        let rest = parts.skip(1);
        assert(first.len() > 0 && !first.contains('/'));
        assert forall|i: int| 0 <= i < first.len() implies #[trigger] first[i] != '/' by {
            assert(first.contains(first[i]));
        }
        if parts.len() == 1 {
            lemma_last_part(Seq::empty(), first);
            assert(parts =~= seq![first]);
        } else {
            assert forall|k: int| 0 <= k < rest.len() implies (#[trigger] rest[k]).len() > 0
                && !rest[k].contains('/') by {
                assert(rest[k] == parts[k + 1]);
            }
            parting_undoes_joining(rest);
            lemma_first_part(first, joined(rest));
            assert(parts =~= seq![first] + rest);
        }
    } else {
        assert(parts =~= Seq::empty());
    }
}

/// What a path holds in front of a name below it.
pub open spec fn head_of(text: Seq<char>) -> Seq<char> {
    if names_of(text).len() == 0 {
        Seq::empty()
    } else {
        path_of(text) + seq!['/']
    }
}

/// A name of plain characters below a text lies behind the path of the text.
pub proof fn lemma_below(text: Seq<char>, name: Seq<char>)
    requires
        is_plain(name),
    ensures
        path_of(text + seq!['/'] + name) == head_of(text) + name,
{
    lemma_names_join(text, name);
    a_plain_text_is_its_own_path(name);
    lemma_plain_stem(name);
    lemma_plain_parts(name);
    joining_undoes_parting(name);
    lemma_joined(names_of(text), names_of(name));
    assert(Seq::<char>::empty() + name =~= name);
}

proof fn lemma_plain_parts(text: Seq<char>)
    requires
        is_plain(text),
    ensures
        names_of(text) == parts_of(text),
        names_of(text).len() > 0,
    decreases text.len(),
{
    let at = first_delimiter(text);
    lemma_first_delimiter_bound(text);
    assert(begins_part(text, 0));
    if at < text.len() {
        let part = text.take(at);
        let rest = text.skip(at + 1);
        assert(at + 1 < text.len()) by {
            assert(text.last() != '/');
        }
        assert forall|i: int| 0 <= i < part.len() implies plain_char(#[trigger] part[i]) && part[i]
            != '/' by {
            assert(part[i] == text[i]);
        }
        assert(at > 0);
        assert(part != seq!['.'] && part != seq!['.', '.']) by {
            if part == seq!['.'] {
                assert(part.len() == 1 && part[0] == '.' && text[0] == part[0]);
            }
            if part == seq!['.', '.'] {
                assert(part.len() == 2 && part[0] == '.' && part[1] == '.');
                assert(text[0] == part[0] && text[1] == part[1]);
            }
        }
        lemma_own_part(part);
        assert(is_plain(rest)) by {
            assert(rest.last() == text.last());
            assert(begins_part(text, at + 1));
            assert(begins_part(rest, 0)) by {
                assert(rest[0] == text[at + 1]);
                if rest.len() > 1 {
                    assert(rest[1] == text[at + 2]);
                }
                if rest.len() > 2 {
                    assert(rest[2] == text[at + 3]);
                }
            }
            assert forall|i: int| 0 <= i < rest.len() implies plain_char(#[trigger] rest[i]) by {
                assert(rest[i] == text[i + at + 1]);
            }
            assert forall|i: int|
                0 < i < rest.len() && rest[i - 1] == '/' implies #[trigger] begins_part(rest, i) by {
                assert(rest[i - 1] == text[i + at]);
                assert(begins_part(text, i + at + 1));
                assert(rest[i] == text[i + at + 1]);
                if i + 1 < rest.len() {
                    assert(rest[i + 1] == text[i + at + 2]);
                }
                if i + 2 < rest.len() {
                    assert(rest[i + 2] == text[i + at + 3]);
                }
            }
        }
        lemma_plain_parts(rest);
        let all = parts_of(text);
        assert(all =~= seq![part] + parts_of(rest));
        assert(all.skip(1) =~= parts_of(rest));
        assert(all[0] == part);
        assert(encoded_parts(all) =~= all);
    } else {
        assert forall|i: int| 0 <= i < text.len() implies plain_char(#[trigger] text[i]) && text[i]
            != '/' by {}
        assert(text != seq!['.'] && text != seq!['.', '.']);
        lemma_own_part(text);
        let all = parts_of(text);
        assert(all =~= seq![text]);
        assert(all.skip(1) =~= Seq::<Seq<char>>::empty());
        assert(encoded_parts(all.skip(1)) =~= Seq::<Seq<char>>::empty());
        assert(encoded_parts(all) =~= all);
    }
}

proof fn lemma_stem_names(text: Seq<char>)
    ensures
        names_of(text) == names_of(stem(text)),
    decreases text.len(),
{
    if text.len() > 0 && text.last() == '/' {
        let less = text.drop_last();
        assert(text =~= less + seq!['/'] + Seq::<char>::empty());
        lemma_names_join(less, Seq::empty());
        assert(names_of(text) =~= names_of(less));
        lemma_stem_names(less);
    }
}

/// A plain text is its own path, and so it is with more delimiters behind it.
pub proof fn a_plain_text_is_its_own_path(text: Seq<char>)
    requires
        is_plain(stem(text)),
    ensures
        path_of(text) == stem(text),
{
    lemma_stem_names(text);
    lemma_plain_parts(stem(text));
    joining_undoes_parting(stem(text));
}

/// Plain texts make a plain text, one part behind another.
pub proof fn lemma_plain_join(a: Seq<char>, b: Seq<char>)
    requires
        is_plain(a),
        is_plain(b),
    ensures
        is_plain(a + seq!['/'] + b),
{
    let whole = a + seq!['/'] + b;
    let n = a.len() as int;
    assert forall|i: int| 0 <= i < whole.len() implies plain_char(#[trigger] whole[i]) by {
        if i < n {
            assert(whole[i] == a[i]);
        } else if i > n {
            assert(whole[i] == b[i - n - 1]);
        }
    }
    assert(begins_part(a, 0));
    assert(whole[0] == a[0]);
    if n > 1 {
        assert(whole[1] == a[1]);
    }
    assert forall|i: int| 0 < i < whole.len() && whole[i - 1] == '/' implies #[trigger] begins_part(
        whole,
        i,
    ) by {
        if i < n {
            assert(whole[i - 1] == a[i - 1]);
            assert(begins_part(a, i));
            assert(whole[i] == a[i]);
            if i + 1 < n {
                assert(whole[i + 1] == a[i + 1]);
            }
        } else if i == n {
            assert(whole[n - 1] == a.last());
        } else {
            let k = i - n - 1;
            assert(whole[i] == b[k]);
            if k > 0 {
                assert(whole[i - 1] == b[k - 1]);
            }
            assert(begins_part(b, k));
            if k + 1 < b.len() {
                assert(whole[i + 1] == b[k + 1]);
            }
        }
    }
    assert(whole.last() == b.last());
}

/// A plain text is its own stem.
pub proof fn lemma_plain_stem(text: Seq<char>)
    requires
        is_plain(text),
    ensures
        stem(text) == text,
{
}

/// Delimiters at the end of a text are no part of its stem.
pub proof fn lemma_stem(text: Seq<char>, tail: Seq<char>)
    requires
        forall|i: int| 0 <= i < tail.len() ==> #[trigger] tail[i] == '/',
    ensures
        stem(text + tail) == stem(text),
    decreases tail.len(),
{
    if tail.len() > 0 {
        let whole = text + tail;
        assert(whole.last() == tail.last());
        assert(whole.drop_last() =~= text + tail.drop_last());
        assert forall|i: int| 0 <= i < tail.drop_last().len() implies #[trigger] tail.drop_last()[i]
            == '/' by {
            assert(tail.drop_last()[i] == tail[i]);
        }
        lemma_stem(text, tail.drop_last());
    } else {
        assert(text + tail =~= text);
    }
}

/// Where the first delimiter of a text is; its length, where there is none.
pub open spec fn first_delimiter(text: Seq<char>) -> int
    decreases text.len(),
{
    if text.len() == 0 || text[0] == '/' {
        0
    } else {
        1 + first_delimiter(text.skip(1))
    }
}

/// The parts of a path: what stands between its delimiters. Nothing stands behind a
/// last one.
pub open spec fn parts_of(text: Seq<char>) -> Seq<Seq<char>>
    decreases text.len(),
{
    let at = first_delimiter(text);
    if text.len() == 0 {
        Seq::empty()
    } else if !(0 <= at < text.len()) {
        seq![text]
    } else {
        seq![text.take(at)] + parts_of(text.skip(at + 1))
    }
}

/// Parts, with a delimiter between each two.
pub open spec fn joined(parts: Seq<Seq<char>>) -> Seq<char>
    decreases parts.len(),
{
    if parts.len() == 0 {
        Seq::empty()
    } else if parts.len() == 1 {
        parts[0]
    } else {
        parts[0] + seq!['/'] + joined(parts.skip(1))
    }
}

proof fn lemma_first_delimiter(text: Seq<char>, at: int)
    requires
        0 <= at <= text.len(),
        forall|i: int| 0 <= i < at ==> #[trigger] text[i] != '/',
        at < text.len() ==> text[at] == '/',
    ensures
        first_delimiter(text) == at,
    decreases text.len(),
{
    if at > 0 {
        assert(text[0] != '/');
        let rest = text.skip(1);
        assert forall|i: int| 0 <= i < at - 1 implies #[trigger] rest[i] != '/' by {
            assert(rest[i] == text[i + 1]);
        }
        lemma_first_delimiter(rest, at - 1);
    }
}

/// The first part of a text, and the parts of what follows it.
pub proof fn lemma_first_part(part: Seq<char>, rest: Seq<char>)
    requires
        forall|i: int| 0 <= i < part.len() ==> #[trigger] part[i] != '/',
    ensures
        parts_of(part + seq!['/'] + rest) == seq![part] + parts_of(rest),
{
    let whole = part + seq!['/'] + rest;
    let n = part.len() as int;
    assert forall|i: int| 0 <= i < n implies #[trigger] whole[i] != '/' by {
        assert(whole[i] == part[i]);
    }
    lemma_first_delimiter(whole, n);
    assert(whole.take(n) =~= part);
    assert(whole.skip(n + 1) =~= rest);
}

/// The last part of a text is what follows its last delimiter.
pub proof fn lemma_last_part(text: Seq<char>, name: Seq<char>)
    requires
        name.len() > 0,
        forall|i: int| 0 <= i < name.len() ==> #[trigger] name[i] != '/',
    ensures
        parts_of(name) == seq![name],
        parts_of(text + seq!['/'] + name).len() > 0,
        parts_of(text + seq!['/'] + name).last() == name,
    decreases text.len(),
{
    lemma_first_delimiter(name, name.len() as int);
    let at = first_delimiter(text);
    lemma_first_delimiter_bound(text);
    if at < text.len() {
        let part = text.take(at);
        let rest = text.skip(at + 1);
        assert forall|i: int| 0 <= i < part.len() implies #[trigger] part[i] != '/' by {
            assert(part[i] == text[i]);
        }
        assert(text + seq!['/'] + name =~= part + seq!['/'] + (rest + seq!['/'] + name));
        lemma_first_part(part, rest + seq!['/'] + name);
        lemma_last_part(rest, name);
    } else {
        lemma_first_part(text, name);
    }
}

proof fn lemma_first_delimiter_bound(text: Seq<char>)
    ensures
        0 <= first_delimiter(text) <= text.len(),
        forall|i: int| 0 <= i < first_delimiter(text) ==> #[trigger] text[i] != '/',
        first_delimiter(text) < text.len() ==> text[first_delimiter(text)] == '/',
    decreases text.len(),
{
    if text.len() > 0 && text[0] != '/' {
        let rest = text.skip(1);
        lemma_first_delimiter_bound(rest);
        assert forall|i: int| 0 <= i < first_delimiter(text) implies #[trigger] text[i] != '/' by {
            if i > 0 {
                assert(rest[i - 1] == text[i]);
            }
        }
        if first_delimiter(text) < text.len() {
            assert(rest[first_delimiter(rest)] == text[first_delimiter(text)]);
        }
    }
}

/// The parts of a text that does not end in a delimiter make it up.
pub proof fn joining_undoes_parting(text: Seq<char>)
    requires
        text.len() > 0 ==> text.last() != '/',
    ensures
        joined(parts_of(text)) == text,
        text.len() > 0 ==> parts_of(text).len() > 0,
    decreases text.len(),
{
    let at = first_delimiter(text);
    lemma_first_delimiter_bound(text);
    if text.len() > 0 && at < text.len() {
        let rest = text.skip(at + 1);
        assert(rest.len() > 0) by {
            if rest.len() == 0 {
                assert(text[at] == text.last());
            }
        }
        assert(rest.last() == text.last());
        joining_undoes_parting(rest);
        let parts = parts_of(text);
        assert(parts.skip(1) =~= parts_of(rest));
        assert(parts[0] == text.take(at));
        assert(text =~= text.take(at) + seq!['/'] + rest);
    }
}

/// The views of parts.
pub open spec fn texts_view(texts: Seq<String>) -> Seq<Seq<char>> {
    texts.map_values(|text: String| text@)
}

/// The parts of a path.
pub fn parts(text: &str) -> (parts: Vec<String>)
    ensures
        texts_view(parts@) == parts_of(text@),
{
    let chars = chars_of(text);
    let ghost all = text@;
    let mut parts: Vec<String> = Vec::new();
    let mut start: usize = 0;
    let mut at: usize = 0;
    assert(all.skip(0) =~= all);
    assert(texts_view(parts@) + parts_of(all) =~= parts_of(all));
    while at < chars.len()
        invariant
            chars@ == text@,
            all == text@,
            start <= at <= all.len(),
            texts_view(parts@) + parts_of(all.skip(start as int)) == parts_of(all),
            forall|i: int| start <= i < at ==> #[trigger] all[i] != '/',
        decreases all.len() - at,
    {
        if chars[at] == '/' {
            let part = text.substring_char(start, at).to_owned();
            let ghost before = parts@;
            let ghost rest = all.skip(start as int);
            parts.push(part);
            proof {
                assert forall|i: int| 0 <= i < at - start implies #[trigger] rest[i] != '/' by {
                    assert(rest[i] == all[i + start]);
                }
                lemma_first_delimiter(rest, at - start);
                assert(rest.take(at - start) =~= part@);
                assert(rest.skip(at - start + 1) =~= all.skip(at + 1));
                assert(texts_view(parts@) =~= texts_view(before).push(part@));
                assert(texts_view(parts@) + parts_of(all.skip(at + 1)) =~= texts_view(before)
                    + parts_of(rest));
            }
            start = at + 1;
        }
        at = at + 1;
    }
    let ghost before = parts@;
    let ghost rest = all.skip(start as int);
    if start < chars.len() {
        let part = text.substring_char(start, at).to_owned();
        parts.push(part);
        proof {
            assert forall|i: int| 0 <= i < rest.len() implies #[trigger] rest[i] != '/' by {
                assert(rest[i] == all[i + start]);
            }
            lemma_first_delimiter(rest, rest.len() as int);
            assert(rest =~= part@);
            assert(texts_view(parts@) =~= texts_view(before).push(part@));
            assert(texts_view(parts@) =~= texts_view(before) + parts_of(rest));
        }
    } else {
        assert(rest =~= Seq::empty());
        assert(texts_view(before) + parts_of(rest) =~= texts_view(before));
    }
    parts
}

/// The parts of a path under another: those that follow it, if it is the other or
/// lies below it.
pub open spec fn parts_under(path: Seq<char>, root: Seq<char>) -> Option<Seq<Seq<char>>> {
    if !(root.len() <= path.len() && path.take(root.len() as int) == root) {
        None
    } else {
        let rest = path.skip(root.len() as int);
        if rest.len() == 0 || root.len() == 0 {
            Some(parts_of(rest))
        } else if rest[0] == '/' {
            Some(parts_of(rest.skip(1)))
        } else {
            None
        }
    }
}

/// The parts of a path that follow another.
pub fn prefix_parts(path: &str, root: &str) -> (found: Option<Vec<String>>)
    ensures
        match found {
            Some(found) => parts_under(path@, root@) == Some(texts_view(found@)),
            None => parts_under(path@, root@) is None,
        },
{
    let long: usize = path.unicode_len();
    let short: usize = root.unicode_len();
    if short > long {
        return None;
    }
    let head = path.substring_char(0, short);
    assert(path@.subrange(0, short as int) =~= path@.take(short as int));
    if !String::from_str(head).same(&String::from_str(root)) {
        return None;
    }
    let rest = path.substring_char(short, long);
    assert(rest@ =~= path@.skip(short as int));
    if long == short || short == 0 {
        return Some(parts(rest));
    }
    if path.get_char(short) != '/' {
        return None;
    }
    let below = path.substring_char(short + 1, long);
    assert(below@ =~= rest@.skip(1));
    Some(parts(below))
}

/// Parts from one on, with a delimiter between each two.
pub fn join_from(parts: &Vec<String>, from: usize) -> (text: String)
    requires
        from <= parts@.len(),
    ensures
        text@ == joined(texts_view(parts@).skip(from as int)),
    decreases parts@.len() - from,
{
    let ghost rest = texts_view(parts@).skip(from as int);
    if from == parts.len() {
        return String::new();
    }
    let mut text = parts[from].clone();
    assert(rest[0] == text@);
    if from + 1 < parts.len() {
        let tail = join_from(parts, from + 1);
        assert(rest.skip(1) =~= texts_view(parts@).skip(from + 1));
        push_char(&mut text, '/');
        text.append(tail.as_str());
        assert(text@ =~= rest[0] + seq!['/'] + tail@);
    }
    text
}

} // verus!
