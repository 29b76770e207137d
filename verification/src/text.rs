//! Text as UTF-8 bytes: the byte view of strings, slices, searches and the
//! small pieces that messages are put together from.
use vstd::prelude::*;
use vstd::utf8::*;

verus! {

/// The bytes of a text. Spans and offsets throughout the crate index these.
pub open spec fn utf8(chars: Seq<char>) -> Seq<u8> {
    encode_utf8(chars)
}

/// The bytes of two texts written one after the other.
pub proof fn lemma_utf8_concat(a: Seq<char>, b: Seq<char>)
    ensures
        utf8(a + b) == utf8(a) + utf8(b),
    decreases a.len(),
{
    if a.len() == 0 {
        assert(a + b =~= b);
        assert(utf8(a) + utf8(b) =~= utf8(b));
    } else {
        let rest = a.drop_first();
        lemma_utf8_concat(rest, b);
        assert((a + b).drop_first() =~= rest + b);
        assert((a + b)[0] == a[0]);
        assert(utf8(a + b) =~= utf8(a) + utf8(b));
    }
}

/// Two texts with the same bytes are the same text.
pub proof fn lemma_utf8_injective(a: Seq<char>, b: Seq<char>)
    requires
        utf8(a) == utf8(b),
    ensures
        a == b,
{
    encode_utf8_decode_utf8(a);
    encode_utf8_decode_utf8(b);
}

/// The empty text has no bytes, and no other text has none.
pub proof fn lemma_utf8_empty(a: Seq<char>)
    ensures
        utf8(a).len() == 0 <==> a.len() == 0,
{
    if a.len() > 0 {
        encode_utf8_first_scalar(a);
    }
}

/// Whether `i` is an offset at which `bytes` can be cut into two texts.
pub open spec fn boundary(bytes: Seq<u8>, i: int) -> bool {
    i == 0 || i == bytes.len() || (0 < i < bytes.len() && !is_continuation_byte(bytes[i]))
}

proof fn lemma_boundary(chars: Seq<char>, i: int)
    requires
        boundary(utf8(chars), i),
    ensures
        is_char_boundary(utf8(chars), i),
{
    let bytes = utf8(chars);
    encode_utf8_valid_utf8(chars);
    is_char_boundary_start_end_of_seq(bytes);
    if 0 <= i < bytes.len() {
        is_char_boundary_iff_not_is_continuation_byte(bytes, i);
    }
}

/// Behind an ASCII byte a text can be cut.
pub proof fn lemma_after_ascii(bytes: Seq<u8>, i: int)
    requires
        valid_utf8(bytes),
        0 < i <= bytes.len(),
        bytes[i - 1] < 128,
    ensures
        boundary(bytes, i),
    decreases bytes.len(),
{
    reveal_with_fuel(valid_utf8, 2);
    let n = length_of_first_scalar(bytes);
    if i < bytes.len() {
        if i == n {
            let rest = pop_first_scalar(bytes);
            assert(rest.len() > 0);
            assert(rest[0] == bytes[i]);
            assert(valid_first_scalar(rest));
        } else if i < n {
            assert(is_continuation_byte(bytes[i - 1]) || i == 1);
        } else {
            lemma_after_ascii(pop_first_scalar(bytes), i - n);
        }
    }
}

/// The piece of `bytes` from `start` up to `end`, or nothing where the two are
/// no cut of a text.
pub open spec fn piece(bytes: Seq<u8>, start: int, end: int) -> Seq<u8> {
    if 0 <= start <= end <= bytes.len() && boundary(bytes, start) && boundary(bytes, end) {
        bytes.subrange(start, end)
    } else {
        Seq::empty()
    }
}

pub(crate) fn is_boundary(bytes: &[u8], i: usize) -> (r: bool)
    requires
        i <= bytes@.len(),
    ensures
        r == boundary(bytes@, i as int),
{
    if i == 0 || i == bytes.len() {
        true
    } else {
        let b: u8 = bytes[i];
        let r = !(128 <= b && b <= 191);
        proof {
            utf8_byte_ranges_bitwise(b);
        }
        r
    }
}

/// The piece of `s` between two byte offsets.
pub fn slice<'a>(s: &'a str, start: usize, end: usize) -> (r: &'a str)
    ensures
        utf8(r@) == piece(utf8(s@), start as int, end as int),
{
    let bytes = s.as_bytes();
    if start <= end && end <= bytes.len() && is_boundary(bytes, start) && is_boundary(bytes, end) {
        proof {
            lemma_boundary(s@, end as int);
        }
        let (head, _) = s.split_at(end);
        proof {
            let hb = utf8(head@);
            assert(hb =~= utf8(s@).subrange(0, end as int));
            assert(boundary(hb, start as int));
            lemma_boundary(head@, start as int);
        }
        let (_, r) = head.split_at(start);
        proof {
            assert(utf8(r@) =~= utf8(s@).subrange(start as int, end as int));
        }
        r
    } else {
        proof {
            reveal_strlit("");
            assert(""@ =~= Seq::<char>::empty());
        }
        ""
    }
}

/// `String::from_utf8` of std: the text that some bytes spell, if they are valid
/// UTF-8; none if they are not.
#[verifier::external_body]
pub(crate) fn text_from_bytes(bytes: Vec<u8>) -> (r: Option<String>)
    ensures
        match r {
            Some(s) => valid_utf8(bytes@) && utf8(s@) == bytes@,
            None => !valid_utf8(bytes@),
        },
{
    String::from_utf8(bytes).ok()
}

/// The bytes of a text that may be missing.
pub open spec fn maybe(t: Option<String>) -> Option<Seq<u8>> {
    match t {
        Some(s) => Some(utf8(s@)),
        None => None,
    }
}

/// ASCII bytes are a text.
pub proof fn lemma_ascii_valid(bytes: Seq<u8>)
    requires
        forall|i: int| 0 <= i < bytes.len() ==> #[trigger] bytes[i] < 128,
    ensures
        valid_utf8(bytes),
    decreases bytes.len(),
{
    if bytes.len() > 0 {
        lemma_ascii_codepoint(bytes[0]);
        let rest = pop_first_scalar(bytes);
        assert(rest =~= bytes.skip(1));
        lemma_ascii_valid(rest);
    }
}

proof fn lemma_ascii_codepoint(b: u8)
    requires
        b < 128,
    ensures
        codepoint_width_1(b) < 128,
{
    assert(b & 0x7F == b) by (bit_vector)
        requires
            b < 128u8,
    ;
}

/// Whether the bytes of `pattern` stand in `bytes` at offset `i`.
pub open spec fn matches_at(bytes: Seq<u8>, i: int, pattern: Seq<u8>) -> bool {
    0 <= i && i + pattern.len() <= bytes.len() && bytes.subrange(i, i + pattern.len()) == pattern
}

/// Whether `bytes` starts with `pattern`.
pub open spec fn has_prefix(bytes: Seq<u8>, pattern: Seq<u8>) -> bool {
    matches_at(bytes, 0, pattern)
}

/// Whether `bytes` ends with `pattern`.
pub open spec fn has_suffix(bytes: Seq<u8>, pattern: Seq<u8>) -> bool {
    matches_at(bytes, bytes.len() - pattern.len(), pattern)
}

/// The first offset at or after `from` at which `pattern` stands in `bytes`.
pub open spec fn first_match(bytes: Seq<u8>, from: int, pattern: Seq<u8>) -> Option<int>
    decreases bytes.len() + 1 - from,
{
    if from < 0 || from + pattern.len() > bytes.len() {
        None
    } else if matches_at(bytes, from, pattern) {
        Some(from)
    } else {
        first_match(bytes, from + 1, pattern)
    }
}

/// A match found from `from` on lies at or after `from`.
pub proof fn lemma_first_match(bytes: Seq<u8>, from: int, pattern: Seq<u8>)
    ensures
        first_match(bytes, from, pattern) matches Some(i) ==> from <= i && matches_at(
            bytes,
            i,
            pattern,
        ),
    decreases bytes.len() + 1 - from,
{
    if 0 <= from && from + pattern.len() <= bytes.len() && !matches_at(bytes, from, pattern) {
        lemma_first_match(bytes, from + 1, pattern);
    }
}

/// Whether `pattern` stands somewhere in `bytes`.
pub open spec fn has_match(bytes: Seq<u8>, pattern: Seq<u8>) -> bool {
    first_match(bytes, 0, pattern) is Some
}

/// Compare two byte strings.
pub fn bytes_eq(a: &[u8], b: &[u8]) -> (r: bool)
    ensures
        r == (a@ == b@),
{
    if a.len() != b.len() {
        return false;
    }
    let mut i: usize = 0;
    while i < a.len()
        invariant
            i <= a@.len(),
            a@.len() == b@.len(),
            a@.subrange(0, i as int) =~= b@.subrange(0, i as int),
        decreases a@.len() - i,
    {
        if a[i] != b[i] {
            assert(a@[i as int] != b@[i as int]);
            return false;
        }
        i += 1;
    }
    assert(a@ =~= a@.subrange(0, i as int));
    assert(b@ =~= b@.subrange(0, i as int));
    true
}

/// Compare two texts.
pub fn same(a: &str, b: &str) -> (r: bool)
    ensures
        r == (utf8(a@) == utf8(b@)),
        r == (a@ == b@),
{
    let r = bytes_eq(a.as_bytes(), b.as_bytes());
    proof {
        if r {
            lemma_utf8_injective(a@, b@);
        }
    }
    r
}

/// Test for `pattern` at offset `i`.
pub fn is_match_at(bytes: &[u8], i: usize, pattern: &[u8]) -> (r: bool)
    ensures
        r == matches_at(bytes@, i as int, pattern@),
{
    if i > bytes.len() || bytes.len() - i < pattern.len() {
        return false;
    }
    let mut k: usize = 0;
    while k < pattern.len()
        invariant
            k <= pattern@.len(),
            i + pattern.len() <= bytes.len(),
            bytes@.subrange(i as int, i + k) =~= pattern@.subrange(0, k as int),
        decreases pattern@.len() - k,
    {
        if bytes[i + k] != pattern[k] {
            assert(bytes@.subrange(i as int, i + pattern@.len())[k as int] != pattern@[k as int]);
            return false;
        }
        k += 1;
    }
    assert(pattern@ =~= pattern@.subrange(0, k as int));
    true
}

/// Test whether a text starts with another.
pub fn starts_with(s: &str, pattern: &str) -> (r: bool)
    ensures
        r == has_prefix(utf8(s@), utf8(pattern@)),
{
    is_match_at(s.as_bytes(), 0, pattern.as_bytes())
}

/// Test whether a text ends with another.
pub fn ends_with(s: &str, pattern: &str) -> (r: bool)
    ensures
        r == has_suffix(utf8(s@), utf8(pattern@)),
{
    let b = s.as_bytes();
    let p = pattern.as_bytes();
    if p.len() > b.len() {
        return false;
    }
    is_match_at(b, b.len() - p.len(), p)
}

/// Find the first place at or after `from` where `pattern` stands.
pub fn find(bytes: &[u8], from: usize, pattern: &[u8]) -> (r: Option<usize>)
    ensures
        match r {
            Some(i) => first_match(bytes@, from as int, pattern@) == Some(i as int),
            None => first_match(bytes@, from as int, pattern@) is None,
        },
        r matches Some(i) ==> from <= i && matches_at(bytes@, i as int, pattern@),
{
    let mut i: usize = from;
    while i <= bytes.len() && bytes.len() - i >= pattern.len()
        invariant
            from <= i,
            first_match(bytes@, from as int, pattern@) == first_match(bytes@, i as int, pattern@),
        decreases bytes@.len() + 1 - i,
    {
        if is_match_at(bytes, i, pattern) {
            return Some(i);
        }
        proof {
            if i == bytes.len() {
                assert(bytes@.subrange(i as int, i as int) =~= pattern@);
            }
        }
        i += 1;
    }
    None
}

/// Test whether a text holds another.
pub fn contains(s: &str, pattern: &str) -> (r: bool)
    ensures
        r == has_match(utf8(s@), utf8(pattern@)),
{
    find(s.as_bytes(), 0, pattern.as_bytes()).is_some()
}

/// The first offset at or after `from` that holds the byte `c`; the length where
/// none does.
pub open spec fn byte_from(bytes: Seq<u8>, from: int, c: u8) -> int
    decreases bytes.len() - from,
{
    if from < 0 || from >= bytes.len() {
        bytes.len() as int
    } else if bytes[from] == c {
        from
    } else {
        byte_from(bytes, from + 1, c)
    }
}

/// Find the first place at or after `from` that holds the byte `c`.
pub fn find_byte(bytes: &[u8], from: usize, c: u8) -> (r: usize)
    requires
        from <= bytes@.len(),
    ensures
        r == byte_from(bytes@, from as int, c),
        from <= r <= bytes@.len(),
        r < bytes@.len() ==> bytes@[r as int] == c,
{
    let mut i: usize = from;
    while i < bytes.len()
        invariant
            from <= i <= bytes@.len(),
            byte_from(bytes@, from as int, c) == byte_from(bytes@, i as int, c),
        decreases bytes@.len() - i,
    {
        if bytes[i] == c {
            return i;
        }
        i += 1;
    }
    i
}

/// The first offset at or after `from` that does not hold the byte `c`.
pub open spec fn run_end(bytes: Seq<u8>, from: int, c: u8) -> int
    decreases bytes.len() - from,
{
    if 0 <= from < bytes.len() && bytes[from] == c {
        run_end(bytes, from + 1, c)
    } else {
        from
    }
}

/// The last offset at or before `to` that the byte `c` does not precede.
pub open spec fn run_start(bytes: Seq<u8>, to: int, c: u8) -> int
    decreases to,
{
    if 0 < to <= bytes.len() && bytes[to - 1] == c {
        run_start(bytes, to - 1, c)
    } else {
        to
    }
}

/// Skip a run of one byte.
pub fn skip_run(bytes: &[u8], from: usize, c: u8) -> (r: usize)
    requires
        from <= bytes@.len(),
    ensures
        r == run_end(bytes@, from as int, c),
        from <= r <= bytes@.len(),
{
    let mut i: usize = from;
    while i < bytes.len() && bytes[i] == c
        invariant
            from <= i <= bytes@.len(),
            run_end(bytes@, from as int, c) == run_end(bytes@, i as int, c),
        decreases bytes@.len() - i,
    {
        i += 1;
    }
    i
}

/// Skip a run of one byte at the end.
pub fn skip_run_back(bytes: &[u8], c: u8) -> (r: usize)
    ensures
        r == run_start(bytes@, bytes@.len() as int, c),
        r <= bytes@.len(),
{
    let mut i: usize = bytes.len();
    while i > 0 && bytes[i - 1] == c
        invariant
            i <= bytes@.len(),
            run_start(bytes@, bytes@.len() as int, c) == run_start(bytes@, i as int, c),
        decreases i,
    {
        i -= 1;
    }
    i
}

/// The last offset at or before `to` at which `pattern` stands in `bytes`.
pub open spec fn last_match(bytes: Seq<u8>, to: int, pattern: Seq<u8>) -> Option<int>
    decreases to + 1,
{
    if to < 0 {
        None
    } else if matches_at(bytes, to, pattern) {
        Some(to)
    } else {
        last_match(bytes, to - 1, pattern)
    }
}

/// Find the last place where `pattern` stands.
pub fn find_last(bytes: &[u8], pattern: &[u8]) -> (r: Option<usize>)
    ensures
        match r {
            Some(i) => last_match(bytes@, bytes@.len() as int, pattern@) == Some(i as int),
            None => last_match(bytes@, bytes@.len() as int, pattern@) is None,
        },
{
    let mut i: usize = bytes.len();
    loop
        invariant
            i <= bytes@.len(),
            last_match(bytes@, bytes@.len() as int, pattern@) == last_match(
                bytes@,
                i as int,
                pattern@,
            ),
        decreases i,
    {
        if is_match_at(bytes, i, pattern) {
            return Some(i);
        }
        if i == 0 {
            return None;
        }
        i -= 1;
    }
}

/// Append a text.
pub fn push(out: &mut String, s: &str)
    ensures
        utf8(final(out)@) == utf8(old(out)@) + utf8(s@),
{
    proof {
        lemma_utf8_concat(out@, s@);
    }
    out.append(s);
}

/// An own copy of a text.
pub fn owned(s: &str) -> (r: String)
    ensures
        r@ == s@,
        utf8(r@) == utf8(s@),
{
    String::from_str(s)
}

/// The decimal digit for `d`.
pub open spec fn digit(d: nat) -> Seq<u8> {
    utf8(
        if d == 0 {
            "0"@
        } else if d == 1 {
            "1"@
        } else if d == 2 {
            "2"@
        } else if d == 3 {
            "3"@
        } else if d == 4 {
            "4"@
        } else if d == 5 {
            "5"@
        } else if d == 6 {
            "6"@
        } else if d == 7 {
            "7"@
        } else if d == 8 {
            "8"@
        } else {
            "9"@
        },
    )
}

/// The decimal notation of `n`.
pub open spec fn decimal(n: nat) -> Seq<u8>
    decreases n,
{
    if n < 10 {
        digit(n)
    } else {
        decimal(n / 10) + digit(n % 10)
    }
}

fn digit_text(d: usize) -> (r: &'static str)
    requires
        d < 10,
    ensures
        utf8(r@) == digit(d as nat),
{
    if d == 0 {
        "0"
    } else if d == 1 {
        "1"
    } else if d == 2 {
        "2"
    } else if d == 3 {
        "3"
    } else if d == 4 {
        "4"
    } else if d == 5 {
        "5"
    } else if d == 6 {
        "6"
    } else if d == 7 {
        "7"
    } else if d == 8 {
        "8"
    } else {
        "9"
    }
}

/// Append the decimal notation of a number.
pub fn push_decimal(out: &mut String, n: usize)
    ensures
        utf8(final(out)@) == utf8(old(out)@) + decimal(n as nat),
    decreases n,
{
    if n >= 10 {
        push_decimal(out, n / 10);
    }
    push(out, digit_text(n % 10));
    proof {
        assert(utf8(out@) =~= utf8(old(out)@) + decimal(n as nat));
    }
}

/// The number that decimal digits write.
pub open spec fn number_of(digits: Seq<u8>) -> int
    decreases digits.len(),
{
    if digits.len() == 0 {
        0
    } else {
        number_of(digits.drop_last()) * 10 + digits.last() - 48
    }
}

/// A number is written in decimal digits that read as that number, without a zero in
/// front unless it is zero.
pub proof fn law_numbers_read_back(n: nat)
    ensures
        decimal(n).len() > 0,
        forall|i: int| 0 <= i < decimal(n).len() ==> 48 <= #[trigger] decimal(n)[i] <= 57,
        number_of(decimal(n)) == n,
        n > 0 ==> decimal(n)[0] != 48,
    decreases n,
{
    let d = if n < 10 {
        n
    } else {
        n % 10
    };
    lemma_digit(d);
    let last = (48 + d) as u8;
    if n < 10 {
        assert(decimal(n) =~= seq![last]);
        assert(decimal(n).drop_last() =~= Seq::<u8>::empty());
        assert(number_of(Seq::<u8>::empty()) == 0);
    } else {
        let front = decimal(n / 10);
        law_numbers_read_back(n / 10);
        assert(decimal(n) =~= front.push(last));
        assert(decimal(n).drop_last() =~= front);
        assert((n / 10) * 10 + n % 10 == n) by (nonlinear_arith);
    }
}

proof fn lemma_digit(d: nat)
    requires
        d < 10,
    ensures
        digit(d) == seq![(48 + d) as u8],
{
    reveal_strlit("0");
    reveal_strlit("1");
    reveal_strlit("2");
    reveal_strlit("3");
    reveal_strlit("4");
    reveal_strlit("5");
    reveal_strlit("6");
    reveal_strlit("7");
    reveal_strlit("8");
    reveal_strlit("9");
    let chars = seq![(48 + d) as char];
    assert(vstd::utf8::is_ascii_chars(chars));
    vstd::utf8::is_ascii_chars_encode_utf8(chars);
    assert(utf8(chars) =~= seq![(48 + d) as u8]);
    assert("0"@ =~= seq!['0']);
    assert("1"@ =~= seq!['1']);
    assert("2"@ =~= seq!['2']);
    assert("3"@ =~= seq!['3']);
    assert("4"@ =~= seq!['4']);
    assert("5"@ =~= seq!['5']);
    assert("6"@ =~= seq!['6']);
    assert("7"@ =~= seq!['7']);
    assert("8"@ =~= seq!['8']);
    assert("9"@ =~= seq!['9']);
}

} // verus!
