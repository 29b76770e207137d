//! `file://` URIs and paths, with the percent coding of URIs.
//!
//! A URI is decoded once on the way in and a path encoded once on the way out.
//! What cannot be decoded is taken as it stands.
use vstd::prelude::*;
use crate::path;
use crate::sorted::SEP;
use crate::text;

verus! {

/// The value of a hexadecimal digit.
pub open spec fn hex(c: u8) -> Option<u8> {
    if 48 <= c <= 57 {
        Some((c - 48) as u8)
    } else if 97 <= c <= 102 {
        Some((c - 87) as u8)
    } else if 65 <= c <= 70 {
        Some((c - 55) as u8)
    } else {
        None
    }
}

/// The byte that an escape at offset `i` stands for, if one is there.
pub open spec fn escaped(b: Seq<u8>, i: int) -> Option<u8> {
    if 0 <= i && i + 2 < b.len() && b[i] == 37 {
        match (hex(b[i + 1]), hex(b[i + 2])) {
            (Some(high), Some(low)) => Some((high * 16 + low) as u8),
            _ => None,
        }
    } else {
        None
    }
}

/// The bytes from offset `i` on, with each escape replaced by what it stands for.
pub open spec fn decoded(b: Seq<u8>, i: int) -> Seq<u8>
    decreases b.len() - i,
{
    if i < 0 || i >= b.len() {
        Seq::empty()
    } else {
        match escaped(b, i) {
            Some(byte) => seq![byte] + decoded(b, i + 3),
            None => seq![b[i]] + decoded(b, i + 1),
        }
    }
}

/// The text that an encoded text stands for; itself where that is no text.
pub open spec fn decoded_text(b: Seq<u8>) -> Seq<u8> {
    if vstd::utf8::valid_utf8(decoded(b, 0)) {
        decoded(b, 0)
    } else {
        b
    }
}

/// The bytes that stand for themselves in the path of a URI.
pub open spec fn unreserved(c: u8) -> bool {
    48 <= c <= 57 || 65 <= c <= 90 || 97 <= c <= 122 || c == 45 || c == 46 || c == 95 || c == 126
        || c == 47
}

/// An upper-case hexadecimal digit.
pub open spec fn hex_digit_for(v: u8) -> u8 {
    if v < 10 {
        (v + 48) as u8
    } else {
        (v + 55) as u8
    }
}

/// How a byte is written.
pub open spec fn encoded_byte(c: u8) -> Seq<u8> {
    if unreserved(c) {
        seq![c]
    } else {
        seq![37u8, hex_digit_for(c / 16), hex_digit_for(c % 16)]
    }
}

/// How a path is written.
pub open spec fn encoded(b: Seq<u8>) -> Seq<u8>
    decreases b.len(),
{
    if b.len() == 0 {
        Seq::empty()
    } else {
        encoded(b.drop_last()) + encoded_byte(b.last())
    }
}

/// What stands behind the authority of a local URI: nothing or `localhost`.
pub open spec fn local_part(after: Seq<u8>) -> Seq<u8> {
    let host = text::utf8("localhost"@);
    let rest = text::piece(after, host.len() as int, after.len() as int);
    if text::has_prefix(after, host) && rest.len() > 0 && rest[0] == SEP {
        rest
    } else {
        after
    }
}

/// The path that a URI spells. What is no `file://` URI is a path as it stands.
pub open spec fn spelled(uri: Seq<u8>) -> Seq<u8> {
    let scheme = text::utf8("file://"@);
    if text::has_prefix(uri, scheme) {
        decoded_text(local_part(text::piece(uri, scheme.len() as int, uri.len() as int)))
    } else {
        uri
    }
}

/// The path that a URI names, in normal form.
pub open spec fn path_of(uri: Seq<u8>) -> Seq<u8> {
    path::normal_form(spelled(uri))
}

/// The URI of a path.
pub open spec fn uri_of(path: Seq<u8>) -> Seq<u8> {
    text::utf8("file://"@) + encoded(path)
}

fn hex_digit(c: u8) -> (r: Option<u8>)
    ensures
        r == hex(c),
        r matches Some(v) ==> v < 16,
{
    if 48 <= c && c <= 57 {
        Some(c - 48)
    } else if 97 <= c && c <= 102 {
        Some(c - 87)
    } else if 65 <= c && c <= 70 {
        Some(c - 55)
    } else {
        None
    }
}

fn escape_at(b: &[u8], i: usize) -> (r: Option<u8>)
    requires
        i < b@.len(),
    ensures
        r == escaped(b@, i as int),
{
    if b[i] != 37 || b.len() - i <= 2 {
        return None;
    }
    match hex_digit(b[i + 1]) {
        Some(high) => match hex_digit(b[i + 2]) {
            Some(low) => Some(high * 16 + low),
            None => None,
        },
        None => None,
    }
}

fn percent_decode(encoded: &str) -> (r: String)
    ensures
        text::utf8(r@) == decoded_text(text::utf8(encoded@)),
{
    let b = encoded.as_bytes();
    let mut out: Vec<u8> = Vec::new();
    let mut i: usize = 0;
    assert(out@ + decoded(b@, 0) =~= decoded(b@, 0));
    while i < b.len()
        invariant
            i <= b@.len(),
            out@ + decoded(b@, i as int) == decoded(b@, 0),
        decreases b@.len() - i,
    {
        let ghost before = out@;
        match escape_at(b, i) {
            Some(byte) => {
                out.push(byte);
                assert(out@ + decoded(b@, i + 3) =~= before + decoded(b@, i as int));
                i += 3;
            },
            None => {
                out.push(b[i]);
                assert(out@ + decoded(b@, i + 1) =~= before + decoded(b@, i as int));
                i += 1;
            },
        }
    }
    assert(out@ + decoded(b@, i as int) =~= out@);
    match text::text_from_bytes(out) {
        Some(s) => s,
        None => text::owned(encoded),
    }
}

fn percent_encode_path(path: &str) -> (r: String)
    ensures
        text::utf8(r@) == encoded(text::utf8(path@)),
{
    let b = path.as_bytes();
    let mut out: Vec<u8> = Vec::new();
    let mut i: usize = 0;
    assert(b@.take(0) =~= Seq::<u8>::empty());
    while i < b.len()
        invariant
            i <= b@.len(),
            out@ == encoded(b@.take(i as int)),
            forall|k: int| 0 <= k < out@.len() ==> #[trigger] out@[k] < 128,
        decreases b@.len() - i,
    {
        let c = b[i];
        let ghost before = out@;
        proof {
            assert(b@.take(i + 1).drop_last() =~= b@.take(i as int));
        }
        if (48 <= c && c <= 57) || (65 <= c && c <= 90) || (97 <= c && c <= 122) || c == 45 || c
            == 46 || c == 95 || c == 126 || c == 47 {
            out.push(c);
        } else {
            out.push(37);
            out.push(hex_text(c / 16));
            out.push(hex_text(c % 16));
        }
        assert(out@ =~= before + encoded_byte(c));
        i += 1;
    }
    proof {
        assert(b@.take(i as int) =~= b@);
        text::lemma_ascii_valid(out@);
    }
    match text::text_from_bytes(out) {
        Some(s) => s,
        None => String::new(),
    }
}

fn hex_text(v: u8) -> (r: u8)
    requires
        v < 16,
    ensures
        r == hex_digit_for(v),
        r < 128,
{
    if v < 10 {
        v + 48
    } else {
        v + 55
    }
}

fn spelled_path(uri: &str) -> (r: String)
    ensures
        text::utf8(r@) == spelled(text::utf8(uri@)),
{
    if !text::starts_with(uri, "file://") {
        return text::owned(uri);
    }
    let after = text::slice(uri, "file://".as_bytes().len(), uri.as_bytes().len());
    let rest = text::slice(after, "localhost".as_bytes().len(), after.as_bytes().len());
    let rb = rest.as_bytes();
    if text::starts_with(after, "localhost") && rb.len() > 0 && rb[0] == SEP {
        percent_decode(rest)
    } else {
        percent_decode(after)
    }
}

/// The path that a URI names, in normal form.
pub fn uri_to_path(uri: &str) -> (r: String)
    ensures
        text::utf8(r@) == path_of(text::utf8(uri@)),
        path::named(r@) == path_of(text::utf8(uri@)),
{
    let p = spelled_path(uri);
    path::normal(p.as_str())
}

/// The URI of a path.
pub fn path_to_uri(path: &str) -> (r: String)
    ensures
        text::utf8(r@) == uri_of(text::utf8(path@)),
{
    let mut r = text::owned("file://");
    text::push(&mut r, percent_encode_path(path).as_str());
    r
}

// Laws.

proof fn lemma_encoded_byte(c: u8)
    ensures
        !unreserved(c) ==> hex(hex_digit_for(c / 16)) == Some((c / 16) as u8) && hex(
            hex_digit_for(c % 16),
        ) == Some((c % 16) as u8),
        !unreserved(c) ==> ((c / 16) * 16 + c % 16) as u8 == c,
        unreserved(c) ==> c != 37,
{
}

/// Decoding what stands before `tail` and then `tail` itself.
proof fn lemma_decoded_encoded(b: Seq<u8>, tail: Seq<u8>, k: int)
    requires
        0 <= k <= b.len(),
    ensures
        decoded(encoded(b) + tail, encoded(b.take(k)).len() as int) == b.skip(k) + decoded(
            encoded(b) + tail,
            encoded(b).len() as int,
        ),
    decreases b.len() - k,
{
    let all = encoded(b) + tail;
    if k == b.len() {
        assert(b.take(k) =~= b);
        assert(b.skip(k) + decoded(all, encoded(b).len() as int) =~= decoded(
            all,
            encoded(b).len() as int,
        ));
    } else {
        lemma_decoded_encoded(b, tail, k + 1);
        let i = encoded(b.take(k)).len() as int;
        let c = b[k];
        assert(b.take(k + 1).drop_last() =~= b.take(k));
        lemma_encoded_split(b, k + 1);
        lemma_encoded_byte(c);
        let e = encoded_byte(c);
        let head = encoded(b.take(k));
        assert(encoded(b.take(k + 1)) =~= head + e);
        let upto = encoded(b.take(k + 1));
        assert forall|x: int| 0 <= x < e.len() implies all[i + x] == #[trigger] e[x] by {
            assert(all[i + x] == encoded(b).take(upto.len() as int)[i + x]);
            assert(upto[i + x] == e[x]);
        }
        assert(all[i] == e[0]);
        if !unreserved(c) {
            assert(all[i + 1] == e[1]);
            assert(all[i + 2] == e[2]);
        }
        assert(b.skip(k) =~= seq![c] + b.skip(k + 1));
        assert(decoded(all, i) =~= seq![c] + decoded(all, i + e.len()));
        assert(seq![c] + (b.skip(k + 1) + decoded(all, encoded(b).len() as int)) =~= b.skip(k)
            + decoded(all, encoded(b).len() as int));
    }
}

proof fn lemma_encoded_split(b: Seq<u8>, k: int)
    requires
        0 <= k <= b.len(),
    ensures
        encoded(b.take(k)).len() <= encoded(b).len(),
        encoded(b).take(encoded(b.take(k)).len() as int) == encoded(b.take(k)),
    decreases b.len(),
{
    if k == b.len() {
        assert(b.take(k) =~= b);
        assert(encoded(b).take(encoded(b).len() as int) =~= encoded(b));
    } else {
        lemma_encoded_split(b.drop_last(), k);
        assert(b.drop_last().take(k) =~= b.take(k));
        let n = encoded(b.take(k)).len() as int;
        assert(encoded(b).take(n) =~= encoded(b.drop_last()).take(n));
    }
}

/// Decoding undoes encoding.
pub proof fn law_decode_encode(b: Seq<u8>)
    ensures
        decoded(encoded(b), 0) == b,
{
    lemma_decoded_encoded(b, Seq::empty(), 0);
    assert(encoded(b) + Seq::<u8>::empty() =~= encoded(b));
    assert(b.take(0) =~= Seq::<u8>::empty());
    assert(b.skip(0) =~= b);
    assert(b + Seq::<u8>::empty() =~= b);
}

/// Two paths have two URIs.
pub proof fn law_each_path_has_its_own_uri(a: Seq<u8>, b: Seq<u8>)
    requires
        uri_of(a) == uri_of(b),
    ensures
        a == b,
{
    let scheme = text::utf8("file://"@);
    let n = scheme.len() as int;
    assert(uri_of(a).skip(n) =~= encoded(a));
    assert(uri_of(b).skip(n) =~= encoded(b));
    law_decode_encode(a);
    law_decode_encode(b);
}

/// The URI of an absolute path names that path: in normal form where the path is,
/// letter for letter.
pub proof fn law_path_uri_round_trip(path: Seq<char>)
    requires
        path.len() > 0,
        path[0] == '/',
    ensures
        spelled(uri_of(text::utf8(path))) == text::utf8(path),
        path_of(uri_of(text::utf8(path))) == path::named(path),
{
    let b = text::utf8(path);
    let scheme = text::utf8("file://"@);
    let e = encoded(b);
    let uri = scheme + e;
    reveal_strlit("file://");
    reveal_strlit("localhost");
    reveal_strlit("/");
    assert(b[0] == 47) by {
        let first = seq!['/'];
        assert(path =~= first + path.drop_first());
        text::lemma_utf8_concat(first, path.drop_first());
        vstd::utf8::is_ascii_chars_encode_utf8(first);
    }
    vstd::utf8::is_ascii_chars_encode_utf8("file://"@);
    vstd::utf8::is_ascii_chars_encode_utf8("localhost"@);
    assert(uri.subrange(0, scheme.len() as int) =~= scheme);
    lemma_encoded_split(b, 1);
    assert(b.take(1) =~= seq![47u8]);
    assert(seq![47u8].drop_last() =~= Seq::<u8>::empty());
    assert(encoded(b.take(1)) =~= seq![47u8]) by {
        assert(encoded(Seq::<u8>::empty()) =~= Seq::<u8>::empty());
        assert(encoded(seq![47u8]) =~= encoded(seq![47u8].drop_last()) + encoded_byte(47u8));
    }
    assert(e[0] == e.take(1)[0]);
    assert(e[0] == 47);
    assert(scheme.len() == 7);
    assert(uri[7] == e[0]);
    assert(text::piece(uri, 7, uri.len() as int) =~= e);
    let host = text::utf8("localhost"@);
    assert(host[0] == 108);
    assert(!text::has_prefix(e, host)) by {
        if text::has_prefix(e, host) {
            assert(e.subrange(0, host.len() as int)[0] == e[0]);
        }
    }
    law_decode_encode(b);
    vstd::utf8::encode_utf8_valid_utf8(path);
}

/// A text without an escape is its own decoding.
pub proof fn law_plain_text_is_unchanged(b: Seq<u8>)
    requires
        forall|i: int| 0 <= i < b.len() ==> #[trigger] b[i] != 37,
    ensures
        decoded(b, 0) == b,
{
    lemma_plain(b, 0);
    assert(b.skip(0) =~= b);
}

proof fn lemma_plain(b: Seq<u8>, i: int)
    requires
        0 <= i <= b.len(),
        forall|k: int| 0 <= k < b.len() ==> #[trigger] b[k] != 37,
    ensures
        decoded(b, i) == b.skip(i),
    decreases b.len() - i,
{
    if i < b.len() {
        lemma_plain(b, i + 1);
        assert(b[i] != 37);
        assert(b.skip(i) =~= seq![b[i]] + b.skip(i + 1));
    } else {
        assert(b.skip(i) =~= Seq::<u8>::empty());
    }
}

/// Whether a byte is written as it is in the path of a URI: a letter, a digit, or one
/// of `-`, `.`, `_`, `~` and `/`.
pub open spec fn is_safe(c: u8) -> bool {
    ||| 97 <= c <= 122
    ||| 65 <= c <= 90
    ||| 48 <= c <= 57
    ||| c == 45
    ||| c == 46
    ||| c == 95
    ||| c == 126
    ||| c == 47
}

/// Paths are written byte by byte: a safe byte as it is, any other as `%` and two
/// digits in capitals that give its number.
pub proof fn law_paths_are_written_byte_by_byte(b: Seq<u8>, c: u8)
    ensures
        encoded(Seq::<u8>::empty()) == Seq::<u8>::empty(),
        is_safe(c) ==> encoded(b.push(c)) == encoded(b).push(c),
        !is_safe(c) ==> {
            let e = encoded(b.push(c));
            let n = encoded(b).len() as int;
            &&& e.len() == n + 3
            &&& e.take(n) == encoded(b)
            &&& e[n] == 37
            &&& digit_value(e[n + 1]) * 16 + digit_value(e[n + 2]) == c
            &&& is_capital_digit(e[n + 1])
            &&& is_capital_digit(e[n + 2])
        },
{
    assert(b.push(c).drop_last() =~= b);
    let e = encoded(b.push(c));
    if is_safe(c) {
        assert(e =~= encoded(b).push(c));
    } else {
        assert(e.take(encoded(b).len() as int) =~= encoded(b));
    }
}

/// Whether a byte is a hexadecimal digit, in capitals.
pub open spec fn is_capital_digit(c: u8) -> bool {
    48 <= c <= 57 || 65 <= c <= 70
}

/// The value of a hexadecimal digit, in capitals or not.
pub open spec fn digit_value(c: u8) -> int {
    if c <= 57 {
        c - 48
    } else if c <= 70 {
        c - 55
    } else {
        c - 87
    }
}

/// A `%` and two hexadecimal digits, in capitals or not, stand for the byte of that
/// number; what comes before and behind is read by itself.
pub proof fn law_escapes_are_read(a: Seq<u8>, high: u8, low: u8, rest: Seq<u8>)
    requires
        forall|i: int| 0 <= i < a.len() ==> #[trigger] a[i] != 37,
        is_capital_digit(high) || 97 <= high <= 102,
        is_capital_digit(low) || 97 <= low <= 102,
    ensures
        decoded(a + seq![37u8, high, low] + rest, 0) == a + seq![
            (digit_value(high) * 16 + digit_value(low)) as u8,
        ] + decoded(rest, 0),
{
    let b = a + seq![37u8, high, low] + rest;
    let n = a.len() as int;
    assert(b[n] == 37 && b[n + 1] == high && b[n + 2] == low);
    lemma_decoded_from(b, n + 3, rest, 0);
    let tail = seq![(digit_value(high) * 16 + digit_value(low)) as u8] + decoded(rest, 0);
    assert(decoded(b, n) == tail);
    assert forall|i: int| 0 <= i < n implies #[trigger] b[i] == a[i] by {}
    lemma_decoded_front(b, a, 0);
    assert(a.skip(0) =~= a);
    assert(a + tail =~= a + seq![(digit_value(high) * 16 + digit_value(low)) as u8] + decoded(
        rest,
        0,
    ));
}

proof fn lemma_decoded_from(b: Seq<u8>, at: int, rest: Seq<u8>, i: int)
    requires
        0 <= at,
        at + rest.len() == b.len(),
        forall|k: int| 0 <= k < rest.len() ==> #[trigger] rest[k] == b[at + k],
        0 <= i <= rest.len(),
    ensures
        decoded(b, at + i) == decoded(rest, i),
    decreases rest.len() - i,
{
    if i < rest.len() {
        assert(rest[i] == b[at + i]);
        if i + 2 < rest.len() {
            assert(rest[i + 1] == b[at + i + 1] && rest[i + 2] == b[at + i + 2]);
            lemma_decoded_from(b, at, rest, i + 3);
        }
        lemma_decoded_from(b, at, rest, i + 1);
    }
}

proof fn lemma_decoded_front(b: Seq<u8>, a: Seq<u8>, i: int)
    requires
        0 <= i <= a.len() < b.len(),
        forall|k: int| 0 <= k < a.len() ==> #[trigger] b[k] == a[k] && a[k] != 37,
    ensures
        decoded(b, i) == a.skip(i) + decoded(b, a.len() as int),
    decreases a.len() - i,
{
    if i < a.len() {
        assert(b[i] == a[i] && a[i] != 37);
        lemma_decoded_front(b, a, i + 1);
        assert(a.skip(i) =~= seq![a[i]] + a.skip(i + 1));
    } else {
        assert(a.skip(i) =~= Seq::<u8>::empty());
        assert(decoded(b, i) =~= a.skip(i) + decoded(b, i));
    }
}

/// What is no `file://` URI is a path as it stands.
pub proof fn law_plain_paths_are_paths(p: Seq<u8>)
    requires
        !text::has_prefix(p, text::utf8("file://"@)),
    ensures
        spelled(p) == p,
        path_of(p) == path::normal_form(p),
{
}

} // verus!
