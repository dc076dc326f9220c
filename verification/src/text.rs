//! Text utilities over UTF-8 strings and character sequences.

use vstd::prelude::*;
use vstd::utf8::*;
use vstd::string::StringSliceAdditionalSpecFns;

verus! {

/// The largest index `<= k` that is a character boundary of the UTF-8 bytes `b`.
pub open spec fn boundary_floor(b: Seq<u8>, k: int) -> int
    decreases k,
{
    if k <= 0 || is_char_boundary(b, k) {
        if k <= 0 { 0 } else { k }
    } else {
        boundary_floor(b, k - 1)
    }
}

/// `max - 3`, saturating at zero.
pub open spec fn room_for_text(max_bytes: nat) -> nat {
    if max_bytes >= 3 { (max_bytes - 3) as nat } else { 0 }
}

/// What `truncate_utf8` makes of the characters `s`: `s` itself when its UTF-8
/// encoding fits in `max_bytes`, otherwise the longest prefix that ends on a
/// character boundary within `max_bytes - 3` bytes, followed by `"..."`.
pub open spec fn truncated(s: Seq<char>, max_bytes: nat) -> Seq<char> {
    let b = encode_utf8(s);
    if b.len() <= max_bytes {
        s
    } else {
        decode_utf8(b.subrange(0, boundary_floor(b, room_for_text(max_bytes) as int)))
            + seq!['.', '.', '.']
    }
}

proof fn lemma_boundary_floor(b: Seq<u8>, k: int)
    requires
        valid_utf8(b),
        k <= b.len(),
    ensures
        0 <= boundary_floor(b, k) <= if k < 0 { 0 } else { k },
        is_char_boundary(b, boundary_floor(b, k)),
    decreases k,
{
    if k <= 0 || is_char_boundary(b, k) {
        if k <= 0 {
            is_char_boundary_start_end_of_seq(b);
        }
    } else {
        lemma_boundary_floor(b, k - 1);
    }
}

/// The UTF-8 encoding of two texts one after the other is the encoding of
/// the first followed by that of the second.
pub proof fn lemma_encode_utf8_concat(a: Seq<char>, b: Seq<char>)
    ensures
        encode_utf8(a + b) == encode_utf8(a) + encode_utf8(b),
    decreases a.len(),
{
    if a.len() == 0 {
        assert(a + b =~= b);
        assert(encode_utf8(a) + encode_utf8(b) =~= encode_utf8(b));
    } else {
        assert((a + b).drop_first() =~= a.drop_first() + b);
        lemma_encode_utf8_concat(a.drop_first(), b);
        assert(encode_utf8(a + b) =~= encode_utf8(a) + encode_utf8(b));
    }
}

/// Truncation keeps a text that fits whole; otherwise it keeps a prefix of
/// the text followed by `"..."`, and the result takes no more than
/// `max_bytes` bytes (or the 3 bytes of the marker, when `max_bytes` is smaller).
pub proof fn lemma_truncated(s: Seq<char>, max_bytes: nat)
    ensures
        encode_utf8(s).len() <= max_bytes ==> truncated(s, max_bytes) == s,
        encode_utf8(s).len() > max_bytes ==> exists|k: int|
            0 <= k <= s.len() && truncated(s, max_bytes) == #[trigger] s.subrange(0, k) + seq!['.', '.', '.'],
        encode_utf8(truncated(s, max_bytes)).len() <= if max_bytes >= 3 { max_bytes } else { 3 },
{
    let b = encode_utf8(s);
    if b.len() > max_bytes {
        encode_utf8_valid_utf8(s);
        encode_utf8_decode_utf8(s);
        let e = boundary_floor(b, room_for_text(max_bytes) as int);
        lemma_boundary_floor(b, room_for_text(max_bytes) as int);
        valid_utf8_split(b, e);
        decode_utf8_split(b, e);
        let head = decode_utf8(b.subrange(0, e));
        decode_utf8_encode_utf8(b.subrange(0, e));
        assert(s == head + decode_utf8(b.subrange(e, b.len() as int)));
        assert(s.subrange(0, head.len() as int) =~= head);
        let dots = seq!['.', '.', '.'];
        lemma_encode_utf8_concat(head, dots);
        assert(encode_utf8(dots).len() == 3) by {
            reveal_with_fuel(encode_utf8, 4);
        }
        assert(truncated(s, max_bytes) == s.subrange(0, head.len() as int) + dots);
    }
}

/// Shortens `s` to at most `max_bytes` bytes (counting the `"..."` marker),
/// cutting only at a character boundary.
pub fn truncate_utf8(s: &str, max_bytes: usize) -> (r: String)
    requires
        s.spec_bytes().len() <= usize::MAX,
    ensures
        r@ == truncated(s@, max_bytes as nat),
{
    let ghost b = s.spec_bytes();
    if s.len() <= max_bytes {
        return s.to_owned();
    }
    proof {
        encode_utf8_valid_utf8(s@);
    }
    let mut end = max_bytes.saturating_sub(3);
    assert(end == room_for_text(max_bytes as nat));
    while end > 0 && !s.is_char_boundary(end)
        invariant
            valid_utf8(b),
            b == s.spec_bytes(),
            end < b.len(),
            boundary_floor(b, end as int) == boundary_floor(b, room_for_text(max_bytes as nat) as int),
        decreases end,
    {
        end -= 1;
    }
    proof {
        if end == 0 {
            is_char_boundary_start_end_of_seq(b);
        }
    }
    let (head, _) = s.split_at(end);
    proof {
        encode_utf8_decode_utf8(head@);
    }
    let mut r = head.to_owned();
    r.append("...");
    proof {
        reveal_strlit("...");
    }
    r
}

} // verus!

verus! {

/// Two strings hold the same characters.
pub fn text_eq(a: &str, b: &str) -> (r: bool)
    ensures
        r == (a@ == b@),
{
    let x = a.as_bytes();
    let y = b.as_bytes();
    proof {
        encode_utf8_decode_utf8(a@);
        encode_utf8_decode_utf8(b@);
    }
    if x.len() != y.len() {
        assert(a@ != b@) by {
            if a@ == b@ {
                assert(a.spec_bytes() == b.spec_bytes());
            }
        }
        return false;
    }
    let mut i: usize = 0;
    while i < x.len()
        invariant
            x@.len() == y@.len(),
            x@ == a.spec_bytes(),
            y@ == b.spec_bytes(),
            0 <= i <= x@.len(),
            forall|k: int| 0 <= k < i ==> x@[k] == y@[k],
        decreases x.len() - i,
    {
        if x[i] != y[i] {
            assert(a@ != b@) by {
                if a@ == b@ {
                    assert(a.spec_bytes() == b.spec_bytes());
                }
            }
            return false;
        }
        i += 1;
    }
    assert(x@ =~= y@);
    true
}

} // verus!

verus! {

/// The characters of `s`, in order.
pub fn chars_of(s: &str) -> (r: Vec<char>)
    ensures
        r@ == s@,
{
    let mut r: Vec<char> = Vec::new();
    for c in it: s.chars()
        invariant
            r@ == it.history(),
    {
        r.push(c);
    }
    r
}

} // verus!

verus! {

/// The characters that `char::is_whitespace` accepts: the Unicode `White_Space` set.
pub open spec fn is_ws(c: char) -> bool {
    let u = c as u32;
    u == 0x20 || (0x09 <= u <= 0x0d) || u == 0x85 || u == 0xa0 || u == 0x1680 || (0x2000 <= u
        <= 0x200a) || u == 0x2028 || u == 0x2029 || u == 0x202f || u == 0x205f || u == 0x3000
}

/// `s` without its leading white space.
pub open spec fn trim_start(s: Seq<char>) -> Seq<char>
    decreases s.len(),
{
    if s.len() > 0 && is_ws(s[0]) {
        trim_start(s.drop_first())
    } else {
        s
    }
}

/// `s` without its trailing white space.
pub open spec fn trim_end(s: Seq<char>) -> Seq<char>
    decreases s.len(),
{
    if s.len() > 0 && is_ws(s.last()) {
        trim_end(s.drop_last())
    } else {
        s
    }
}

/// `s` without leading and trailing white space.
pub open spec fn trim(s: Seq<char>) -> Seq<char> {
    trim_end(trim_start(s))
}

/// `needle` occurs in `hay` as a contiguous run.
pub open spec fn contains_text(hay: Seq<char>, needle: Seq<char>) -> bool {
    exists|k: int|
        0 <= k && k + needle.len() <= hay.len() && #[trigger] hay.subrange(k, k + needle.len())
            == needle
}

/// `s` with every leading repetition of the non-empty pattern `p` removed.
pub open spec fn strip_prefix_all(s: Seq<char>, p: Seq<char>) -> Seq<char>
    decreases s.len(),
{
    if p.len() > 0 && p.len() <= s.len() && s.subrange(0, p.len() as int) == p {
        strip_prefix_all(s.subrange(p.len() as int, s.len() as int), p)
    } else {
        s
    }
}

/// `s` with every trailing `c` removed.
pub open spec fn strip_suffix_all(s: Seq<char>, c: char) -> Seq<char>
    decreases s.len(),
{
    if s.len() > 0 && s.last() == c {
        strip_suffix_all(s.drop_last(), c)
    } else {
        s
    }
}

/// `s` ends with `suffix`.
pub open spec fn ends_with(s: Seq<char>, suffix: Seq<char>) -> bool {
    suffix.len() <= s.len() && s.subrange(s.len() - suffix.len(), s.len() as int) == suffix
}

/// The first index `>= k` at which `s` holds `x`.
pub open spec fn first_index_from<A>(s: Seq<A>, x: A, k: int) -> Option<int>
    decreases s.len() - k,
{
    if k < 0 || k >= s.len() {
        None
    } else if s[k] == x {
        Some(k)
    } else {
        first_index_from(s, x, k + 1)
    }
}

/// What `first_index_from` finds holds `x`, lies at or after `k`, and nothing
/// between `k` and it holds `x`; when it finds nothing, nothing from `k` on holds `x`.
pub proof fn lemma_first_index_from<A>(s: Seq<A>, x: A, k: int)
    requires
        0 <= k,
    ensures
        first_index_from(s, x, k) matches Some(p) ==> k <= p < s.len() && s[p] == x && forall|
            q: int,
        | k <= q < p ==> s[q] != x,
        first_index_from(s, x, k) is None ==> forall|q: int| k <= q < s.len() ==> s[q] != x,
    decreases s.len() - k,
{
    if k >= s.len() {
    } else if s[k] == x {
    } else {
        lemma_first_index_from(s, x, k + 1);
    }
}

/// The last index below `k` at which `s` holds `x`.
pub open spec fn last_index_below(s: Seq<char>, x: char, k: int) -> Option<int>
    decreases k,
{
    if k <= 0 || k > s.len() {
        None
    } else if s[k - 1] == x {
        Some(k - 1)
    } else {
        last_index_below(s, x, k - 1)
    }
}

/// What follows the last `x` in `s`; all of `s` when `x` does not occur.
pub open spec fn after_last(s: Seq<char>, x: char) -> Seq<char> {
    match last_index_below(s, x, s.len() as int) {
        Some(p) => s.subrange(p + 1, s.len() as int),
        None => s,
    }
}

/// The first line of `s`, as `str::lines` yields it: up to the first `'\n'`,
/// without the `'\r'` of a `"\r\n"` ending; the empty text when `s` is empty.
pub open spec fn first_line(s: Seq<char>) -> Seq<char> {
    match first_index_from(s, '\n', 0) {
        Some(p) => {
            let seg = s.subrange(0, p);
            if seg.len() > 0 && seg.last() == '\r' {
                seg.drop_last()
            } else {
                seg
            }
        },
        None => s,
    }
}

/// The parts joined with `sep` between each two neighbours.
pub open spec fn join(parts: Seq<Seq<char>>, sep: Seq<char>) -> Seq<char>
    decreases parts.len(),
{
    if parts.len() == 0 {
        seq![]
    } else if parts.len() == 1 {
        parts[0]
    } else {
        join(parts.drop_last(), sep) + sep + parts.last()
    }
}

/// The text that valid UTF-8 bytes encode; the empty text for invalid bytes.
pub open spec fn decoded_or_empty(b: Seq<u8>) -> Seq<char> {
    if valid_utf8(b) {
        decode_utf8(b)
    } else {
        seq![]
    }
}

/// `char::is_whitespace`.
pub fn is_ws_char(c: char) -> (r: bool)
    ensures
        r == is_ws(c),
{
    let u = c as u32;
    u == 0x20 || (0x09 <= u && u <= 0x0d) || u == 0x85 || u == 0xa0 || u == 0x1680 || (0x2000
        <= u && u <= 0x200a) || u == 0x2028 || u == 0x2029 || u == 0x202f || u == 0x205f || u
        == 0x3000
}

/// The characters of `s` from `a` up to `b`.
pub fn sub_chars(s: &[char], a: usize, b: usize) -> (r: Vec<char>)
    requires
        a <= b <= s@.len(),
    ensures
        r@ == s@.subrange(a as int, b as int),
{
    let mut r: Vec<char> = Vec::new();
    let mut k = a;
    while k < b
        invariant
            a <= k <= b <= s@.len(),
            r@ == s@.subrange(a as int, k as int),
        decreases b - k,
    {
        r.push(s[k]);
        k += 1;
        assert(r@ =~= s@.subrange(a as int, k as int));
    }
    r
}

/// `s` without leading and trailing white space (`str::trim`).
pub fn trim_chars(s: &[char]) -> (r: Vec<char>)
    ensures
        r@ == trim(s@),
{
    let mut a: usize = 0;
    assert(s@.subrange(0, s@.len() as int) =~= s@);
    while a < s.len() && is_ws_char(s[a])
        invariant
            a <= s@.len(),
            trim_start(s@) == trim_start(s@.subrange(a as int, s@.len() as int)),
        decreases s.len() - a,
    {
        assert(s@.subrange(a as int, s@.len() as int).drop_first() =~= s@.subrange(
            a + 1,
            s@.len() as int,
        ));
        a += 1;
    }
    let mut b: usize = s.len();
    while b > a && is_ws_char(s[b - 1])
        invariant
            a <= b <= s@.len(),
            trim_start(s@) == s@.subrange(a as int, s@.len() as int),
            trim(s@) == trim_end(s@.subrange(a as int, b as int)),
        decreases b,
    {
        assert(s@.subrange(a as int, b as int).drop_last() =~= s@.subrange(a as int, b - 1));
        b -= 1;
    }
    sub_chars(s, a, b)
}

/// `needle` occurs in `hay` at index `k`.
fn matches_at(hay: &[char], needle: &[char], k: usize) -> (r: bool)
    requires
        k + needle@.len() <= hay@.len(),
    ensures
        r == (hay@.subrange(k as int, k + needle@.len()) == needle@),
{
    let hl = hay.len();
    let mut j: usize = 0;
    while j < needle.len()
        invariant
            hl == hay@.len(),
            k + needle@.len() <= hay@.len(),
            j <= needle@.len(),
            forall|m: int| 0 <= m < j ==> hay@[k + m] == needle@[m],
        decreases needle.len() - j,
    {
        if hay[k + j] != needle[j] {
            assert(hay@.subrange(k as int, k + needle@.len())[j as int] != needle@[j as int]);
            return false;
        }
        j += 1;
    }
    assert(hay@.subrange(k as int, k + needle@.len()) =~= needle@);
    true
}

/// `needle` occurs in `hay` (`str::contains`).
pub fn contains_chars(hay: &[char], needle: &[char]) -> (r: bool)
    ensures
        r == contains_text(hay@, needle@),
{
    if needle.len() > hay.len() {
        return false;
    }
    if needle.len() == 0 {
        assert(hay@.subrange(0int, 0int + needle@.len()) =~= needle@);
        return true;
    }
    let hl = hay.len();
    let last = hl - needle.len();
    let mut k: usize = 0;
    while k <= last
        invariant
            hl == hay@.len(),
            last + needle@.len() == hay@.len(),
            needle@.len() > 0,
            k <= last + 1,
            forall|m: int| 0 <= m < k ==> #[trigger] hay@.subrange(m, m + needle@.len()) != needle@,
        decreases last + 1 - k,
    {
        if matches_at(hay, needle, k) {
            return true;
        }
        k += 1;
    }
    false
}

/// `s` with every leading repetition of `p` removed (`str::trim_start_matches`).
pub fn strip_prefix_chars(s: &[char], p: &[char]) -> (r: Vec<char>)
    ensures
        r@ == strip_prefix_all(s@, p@),
{
    if p.len() == 0 {
        return sub_chars(s, 0, s.len());
    }
    let mut a: usize = 0;
    assert(s@.subrange(0, s@.len() as int) =~= s@);
    while p.len() <= s.len() - a && matches_at(s, p, a)
        invariant
            a <= s@.len(),
            p@.len() > 0,
            strip_prefix_all(s@, p@) == strip_prefix_all(s@.subrange(a as int, s@.len() as int), p@),
        decreases s.len() - a,
    {
        let ghost t = s@.subrange(a as int, s@.len() as int);
        assert(t.subrange(0, p@.len() as int) =~= s@.subrange(a as int, a + p@.len()));
        assert(t.subrange(p@.len() as int, t.len() as int) =~= s@.subrange(
            a + p@.len(),
            s@.len() as int,
        ));
        a += p.len();
    }
    proof {
        let t = s@.subrange(a as int, s@.len() as int);
        if p@.len() <= t.len() {
            assert(t.subrange(0, p@.len() as int) =~= s@.subrange(a as int, a + p@.len()));
        }
    }
    sub_chars(s, a, s.len())
}

/// `s` with every trailing `c` removed (`str::trim_end_matches`).
pub fn strip_suffix_chars(s: &[char], c: char) -> (r: Vec<char>)
    ensures
        r@ == strip_suffix_all(s@, c),
{
    let mut b: usize = s.len();
    assert(s@.subrange(0, s@.len() as int) =~= s@);
    while b > 0 && s[b - 1] == c
        invariant
            b <= s@.len(),
            strip_suffix_all(s@, c) == strip_suffix_all(s@.subrange(0, b as int), c),
        decreases b,
    {
        assert(s@.subrange(0, b as int).drop_last() =~= s@.subrange(0, b - 1));
        b -= 1;
    }
    sub_chars(s, 0, b)
}

/// `s` ends with `suffix` (`str::ends_with`).
pub fn ends_with_chars(s: &[char], suffix: &[char]) -> (r: bool)
    ensures
        r == ends_with(s@, suffix@),
{
    if suffix.len() > s.len() {
        return false;
    }
    matches_at(s, suffix, s.len() - suffix.len())
}

/// What follows the last `x` in `s`, or all of `s` (`str::rsplit(x).next()`).
pub fn after_last_chars(s: &[char], x: char) -> (r: Vec<char>)
    ensures
        r@ == after_last(s@, x),
{
    let mut k: usize = s.len();
    while k > 0 && s[k - 1] != x
        invariant
            k <= s@.len(),
            last_index_below(s@, x, s@.len() as int) == last_index_below(s@, x, k as int),
        decreases k,
    {
        k -= 1;
    }
    if k == 0 {
        sub_chars(s, 0, s.len())
    } else {
        sub_chars(s, k, s.len())
    }
}

/// The first line of `s` (`str::lines().next().unwrap_or("")`).
pub fn first_line_chars(s: &[char]) -> (r: Vec<char>)
    ensures
        r@ == first_line(s@),
{
    let mut k: usize = 0;
    while k < s.len() && s[k] != '\n'
        invariant
            k <= s@.len(),
            first_index_from(s@, '\n', 0) == first_index_from(s@, '\n', k as int),
        decreases s.len() - k,
    {
        k += 1;
    }
    if k == s.len() {
        sub_chars(s, 0, s.len())
    } else if k > 0 && s[k - 1] == '\r' {
        let r = sub_chars(s, 0, k - 1);
        assert(r@ =~= s@.subrange(0, k as int).drop_last());
        r
    } else {
        sub_chars(s, 0, k)
    }
}

/// A `String` holding the characters `cs`.
///
/// Calls `FromIterator<&char>` for `String` (`Iterator::collect`); the
/// contract claims that the string holds exactly these characters, in order.
#[verifier::external_body]
pub(crate) fn string_of(cs: &[char]) -> (r: String)
    ensures
        r@ == cs@,
{
    cs.iter().collect()
}

/// Decodes UTF-8 bytes to a string slice.
///
/// Calls `std::str::from_utf8`; the contract claims what its documentation
/// states: `Some` exactly for valid UTF-8, holding the characters encoded.
#[verifier::external_body]
pub(crate) fn utf8_str(bytes: &[u8]) -> (r: Option<&str>)
    ensures
        r is Some <==> valid_utf8(bytes@),
        r matches Some(s) ==> s@ == decode_utf8(bytes@),
{
    std::str::from_utf8(bytes).ok()
}

/// The text that `bytes` encode, or the empty text for invalid UTF-8
/// (`str::from_utf8(..).unwrap_or("")`).
pub fn text_or_empty(bytes: &[u8]) -> (r: &str)
    ensures
        r@ == decoded_or_empty(bytes@),
        r.spec_bytes().len() <= bytes@.len(),
{
    match utf8_str(bytes) {
        Some(s) => {
            proof {
                decode_utf8_encode_utf8(bytes@);
            }
            s
        },
        None => {
            proof {
                reveal_strlit("");
            }
            ""
        },
    }
}

} // verus!
