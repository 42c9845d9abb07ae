//! Character-level text operations: prefixes, searches, trimming and case
//! folding over sequences of `char`, each with an executable counterpart.
use vstd::prelude::*;
use vstd::utf8::*;

verus! {

broadcast use vstd::string::group_string_axioms;

/// Unicode `White_Space`: the characters that `str::trim` and friends remove.
pub open spec fn is_white_space(c: char) -> bool {
    let u = c as u32;
    ||| 0x09 <= u <= 0x0D
    ||| u == 0x20
    ||| u == 0x85
    ||| u == 0xA0
    ||| u == 0x1680
    ||| 0x2000 <= u <= 0x200A
    ||| u == 0x2028
    ||| u == 0x2029
    ||| u == 0x202F
    ||| u == 0x205F
    ||| u == 0x3000
}

/// ASCII letters and digits.
pub open spec fn is_ascii_alnum(c: char) -> bool {
    ||| ('0' <= c && c <= '9')
    ||| ('A' <= c && c <= 'Z')
    ||| ('a' <= c && c <= 'z')
}

/// ASCII case folding: `A`..`Z` become `a`..`z`, every other character stays.
pub open spec fn ascii_lower(c: char) -> char {
    if 'A' <= c && c <= 'Z' {
        ((c as u32) + 32) as char
    } else {
        c
    }
}

/// The whole sequence folded with [`ascii_lower`].
pub open spec fn ascii_lower_seq(s: Seq<char>) -> Seq<char> {
    s.map_values(|c: char| ascii_lower(c))
}

/// `s` begins with `p`.
pub open spec fn starts_with(s: Seq<char>, p: Seq<char>) -> bool {
    p.len() <= s.len() && s.subrange(0, p.len() as int) == p
}

/// What remains of `s` once the prefix `p` is removed, if `s` begins with `p`.
pub open spec fn strip_prefix(s: Seq<char>, p: Seq<char>) -> Option<Seq<char>> {
    if starts_with(s, p) {
        Some(s.skip(p.len() as int))
    } else {
        None
    }
}

/// `p` occurs in `s` starting at index `i`.
pub open spec fn occurs_at(s: Seq<char>, p: Seq<char>, i: int) -> bool {
    0 <= i && i + p.len() <= s.len() && s.subrange(i, i + p.len()) == p
}

/// `p` occurs somewhere in `s`.
pub open spec fn contains(s: Seq<char>, p: Seq<char>) -> bool {
    exists|i: int| occurs_at(s, p, i)
}

/// The first index at or after `from` where `p` occurs in `s`.
pub open spec fn find_from(s: Seq<char>, p: Seq<char>, from: int) -> Option<int>
    decreases s.len() + 1 - from,
{
    if from < 0 || from + p.len() > s.len() {
        None
    } else if occurs_at(s, p, from) {
        Some(from)
    } else {
        find_from(s, p, from + 1)
    }
}

/// The first index where `p` occurs in `s`.
pub open spec fn find(s: Seq<char>, p: Seq<char>) -> Option<int> {
    find_from(s, p, 0)
}

/// The last index below `end` where `p` occurs in `s`.
pub open spec fn rfind_below(s: Seq<char>, p: Seq<char>, end: int) -> Option<int>
    decreases end,
{
    if end <= 0 {
        None
    } else if occurs_at(s, p, end - 1) {
        Some(end - 1)
    } else {
        rfind_below(s, p, end - 1)
    }
}

/// The last index where `p` occurs in `s`.
pub open spec fn rfind(s: Seq<char>, p: Seq<char>) -> Option<int> {
    rfind_below(s, p, s.len() as int + 1)
}

/// What follows the last occurrence of `p` in `s`; all of `s` when `p` does not
/// occur (the first piece that `rsplit` yields).
pub open spec fn after_last(s: Seq<char>, p: Seq<char>) -> Seq<char> {
    match rfind(s, p) {
        Some(i) => s.skip(i + p.len()),
        None => s,
    }
}

/// `s` with its leading white space removed.
pub open spec fn trim_start(s: Seq<char>) -> Seq<char>
    decreases s.len(),
{
    if s.len() > 0 && is_white_space(s[0]) {
        trim_start(s.drop_first())
    } else {
        s
    }
}

/// `s` with its trailing white space removed.
pub open spec fn trim_end(s: Seq<char>) -> Seq<char>
    decreases s.len(),
{
    if s.len() > 0 && is_white_space(s.last()) {
        trim_end(s.drop_last())
    } else {
        s
    }
}

/// `s` with white space removed at both ends.
pub open spec fn trim(s: Seq<char>) -> Seq<char> {
    trim_end(trim_start(s))
}

/// The number of bytes of the UTF-8 encoding of `s`.
pub open spec fn utf8_len(s: Seq<char>) -> nat {
    encode_utf8(s).len()
}

} // verus!

verus! {

/// The characters of `s`, in order.
pub fn chars_of(s: &str) -> (v: Vec<char>)
    ensures
        v@ == s@,
{
    let mut v: Vec<char> = Vec::new();
    for c in it: s.chars()
        invariant
            it.seq() == s@,
            v@ == it.seq().take(it.index() as int),
    {
        v.push(c);
    }
    v
}

/// Appends `c` to `s`: a wrapper of `String::push`, whose documentation says
/// that it appends the given char to the end of the string.
#[verifier::external_body]
fn push_char(s: &mut String, c: char)
    ensures
        final(s)@ == old(s)@.push(c),
{
    s.push(c);
}

/// A `String` holding exactly the characters of `cs`.
pub fn string_of(cs: &[char]) -> (s: String)
    ensures
        s@ == cs@,
{
    let mut s = String::new();
    let mut i: usize = 0;
    while i < cs.len()
        invariant
            i <= cs@.len(),
            s@ == cs@.take(i as int),
        decreases cs@.len() - i,
    {
        push_char(&mut s, cs[i]);
        i = i + 1;
        assert(s@ == cs@.take(i as int));
    }
    assert(cs@.take(cs@.len() as int) == cs@);
    s
}

/// Whether `c` is Unicode white space (`char::is_whitespace`).
pub fn is_white_space_char(c: char) -> (b: bool)
    ensures
        b == is_white_space(c),
{
    let u = c as u32;
    (0x09 <= u && u <= 0x0D) || u == 0x20 || u == 0x85 || u == 0xA0 || u == 0x1680
        || (0x2000 <= u && u <= 0x200A) || u == 0x2028 || u == 0x2029 || u == 0x202F
        || u == 0x205F || u == 0x3000
}

/// Whether `c` is an ASCII letter or digit (`char::is_ascii_alphanumeric`).
pub fn is_ascii_alnum_char(c: char) -> (b: bool)
    ensures
        b == is_ascii_alnum(c),
{
    ('0' <= c && c <= '9') || ('A' <= c && c <= 'Z') || ('a' <= c && c <= 'z')
}

/// Whether `p` occurs in `s` at index `i`.
pub fn occurs_at_index(s: &[char], p: &[char], i: usize) -> (b: bool)
    ensures
        b == occurs_at(s@, p@, i as int),
{
    if i > s.len() || p.len() > s.len() - i {
        return false;
    }
    let mut j: usize = 0;
    while j < p.len()
        invariant
            i + p@.len() <= s@.len(),
            s@.len() == s.len(),
            j <= p@.len(),
            forall|k: int| 0 <= k < j ==> s@[i + k] == p@[k],
        decreases p@.len() - j,
    {
        if s[i + j] != p[j] {
            assert(s@.subrange(i as int, i + p@.len())[j as int] != p@[j as int]);
            return false;
        }
        j = j + 1;
    }
    assert(s@.subrange(i as int, i + p@.len()) =~= p@);
    true
}

/// The first index at or after `from` where `p` occurs in `s`
/// (`str::find` on the part of `s` from `from` on, shifted by `from`).
pub fn find_from_index(s: &[char], p: &[char], from: usize) -> (r: Option<usize>)
    ensures
        match r {
            Some(i) => find_from(s@, p@, from as int) == Some(i as int),
            None => find_from(s@, p@, from as int) is None,
        },
{
    let mut i = from;
    while i < s.len() && p.len() <= s.len() - i
        invariant
            from <= i,
            find_from(s@, p@, from as int) == find_from(s@, p@, i as int),
        decreases s@.len() - i,
    {
        if occurs_at_index(s, p, i) {
            return Some(i);
        }
        i = i + 1;
    }
    if i <= s.len() && p.len() <= s.len() - i && occurs_at_index(s, p, i) {
        return Some(i);
    }
    assert(find_from(s@, p@, i + 1) is None);
    None
}

/// Where `find_from` stops: the index it gives is an occurrence and none lies
/// before it; when it gives none, no occurrence starts at or after `from`.
pub proof fn lemma_find_from(s: Seq<char>, p: Seq<char>, from: int)
    requires
        0 <= from,
    ensures
        match find_from(s, p, from) {
            Some(i) => from <= i && occurs_at(s, p, i) && forall|j: int|
                from <= j < i ==> !occurs_at(s, p, j),
            None => forall|j: int| from <= j ==> !occurs_at(s, p, j),
        },
    decreases s.len() + 1 - from,
{
    if from + p.len() > s.len() {
    } else if occurs_at(s, p, from) {
    } else {
        lemma_find_from(s, p, from + 1);
    }
}

/// Where `rfind_below` stops: the index it gives is the last occurrence below
/// `end`; when it gives none, nothing occurs below `end`.
pub proof fn lemma_rfind_below(s: Seq<char>, p: Seq<char>, end: int)
    ensures
        match rfind_below(s, p, end) {
            Some(i) => 0 <= i < end && occurs_at(s, p, i) && forall|j: int|
                i < j < end ==> !occurs_at(s, p, j),
            None => forall|j: int| j < end ==> !occurs_at(s, p, j),
        },
    decreases end,
{
    if end <= 0 {
    } else if occurs_at(s, p, end - 1) {
    } else {
        lemma_rfind_below(s, p, end - 1);
    }
}

/// Whether `p` occurs in `s` (`str::contains`).
pub fn contains_chars(s: &[char], p: &[char]) -> (b: bool)
    ensures
        b == contains(s@, p@),
{
    proof {
        lemma_find_from(s@, p@, 0);
    }
    match find_from_index(s, p, 0) {
        Some(i) => {
            assert(occurs_at(s@, p@, i as int));
            true
        },
        None => false,
    }
}

/// The last index where `p` occurs in `s`.
pub fn rfind_index(s: &[char], p: &[char]) -> (r: Option<usize>)
    ensures
        match r {
            Some(i) => rfind(s@, p@) == Some(i as int),
            None => rfind(s@, p@) is None,
        },
{
    if p.len() > s.len() {
        proof {
            lemma_rfind_below(s@, p@, s@.len() as int + 1);
            assert forall|j: int| !occurs_at(s@, p@, j) by {}
            lemma_rfind_none(s@, p@, s@.len() as int + 1);
        }
        return None;
    }
    let mut e: usize = s.len() - p.len();
    proof {
        lemma_rfind_skip(s@, p@, s@.len() as int + 1, e + 1);
    }
    loop
        invariant
            e <= s@.len() - p@.len(),
            p@.len() <= s@.len(),
            rfind(s@, p@) == rfind_below(s@, p@, e + 1),
        decreases e,
    {
        if occurs_at_index(s, p, e) {
            return Some(e);
        }
        if e == 0 {
            assert(rfind_below(s@, p@, 0) is None);
            return None;
        }
        e = e - 1;
    }
}

/// `rfind_below` gives nothing when no occurrence lies below `end`.
proof fn lemma_rfind_none(s: Seq<char>, p: Seq<char>, end: int)
    requires
        forall|j: int| j < end ==> !occurs_at(s, p, j),
    ensures
        rfind_below(s, p, end) is None,
    decreases end,
{
    if end > 0 {
        lemma_rfind_none(s, p, end - 1);
    }
}

/// Lowering the bound of `rfind_below` past indices where nothing can occur
/// changes nothing.
proof fn lemma_rfind_skip(s: Seq<char>, p: Seq<char>, end: int, lower: int)
    requires
        0 <= lower <= end,
        lower >= s.len() - p.len() + 1,
    ensures
        rfind_below(s, p, end) == rfind_below(s, p, lower),
    decreases end,
{
    if end > lower {
        assert(!occurs_at(s, p, end - 1));
        lemma_rfind_skip(s, p, end - 1, lower);
    }
}

/// The index where `trim_start` of `s[lo..hi]` begins.
pub fn trim_start_index(s: &[char], lo: usize, hi: usize) -> (k: usize)
    requires
        lo <= hi <= s@.len(),
    ensures
        lo <= k <= hi,
        trim_start(s@.subrange(lo as int, hi as int)) == s@.subrange(k as int, hi as int),
{
    let mut i = lo;
    while i < hi && is_white_space_char(s[i])
        invariant
            lo <= i <= hi <= s@.len(),
            trim_start(s@.subrange(lo as int, hi as int)) == trim_start(
                s@.subrange(i as int, hi as int),
            ),
        decreases hi - i,
    {
        assert(s@.subrange(i as int, hi as int).drop_first() == s@.subrange(i + 1, hi as int));
        i = i + 1;
    }
    i
}

/// The index where `trim_end` of `s[lo..hi]` ends.
pub fn trim_end_index(s: &[char], lo: usize, hi: usize) -> (k: usize)
    requires
        lo <= hi <= s@.len(),
    ensures
        lo <= k <= hi,
        trim_end(s@.subrange(lo as int, hi as int)) == s@.subrange(lo as int, k as int),
{
    let mut j = hi;
    while j > lo && is_white_space_char(s[j - 1])
        invariant
            lo <= j <= hi <= s@.len(),
            trim_end(s@.subrange(lo as int, hi as int)) == trim_end(
                s@.subrange(lo as int, j as int),
            ),
        decreases j,
    {
        assert(s@.subrange(lo as int, j as int).drop_last() == s@.subrange(lo as int, j - 1));
        j = j - 1;
    }
    j
}

/// The bounds of `trim` of `s[lo..hi]` (`str::trim`).
pub fn trim_bounds(s: &[char], lo: usize, hi: usize) -> (r: (usize, usize))
    requires
        lo <= hi <= s@.len(),
    ensures
        lo <= r.0 <= r.1 <= hi,
        trim(s@.subrange(lo as int, hi as int)) == s@.subrange(r.0 as int, r.1 as int),
{
    let a = trim_start_index(s, lo, hi);
    let b = trim_end_index(s, a, hi);
    (a, b)
}

/// `s` with `A`..`Z` folded to `a`..`z` (`str::to_ascii_lowercase`).
pub fn ascii_lowercase(s: &[char]) -> (v: Vec<char>)
    ensures
        v@ == ascii_lower_seq(s@),
{
    let mut v: Vec<char> = Vec::new();
    let mut i: usize = 0;
    while i < s.len()
        invariant
            i <= s@.len(),
            v@ == ascii_lower_seq(s@.take(i as int)),
        decreases s@.len() - i,
    {
        let c = s[i];
        let l = if 'A' <= c && c <= 'Z' {
            let b = (c as u32) + 32;
            ((b as u8) as char)
        } else {
            c
        };
        assert(l == ascii_lower(c));
        v.push(l);
        i = i + 1;
        assert(ascii_lower_seq(s@.take(i as int)) =~= ascii_lower_seq(s@.take(i - 1)).push(ascii_lower(c)));
    }
    assert(s@.take(s@.len() as int) == s@);
    v
}

/// The text that `lossy_utf8` (`String::from_utf8_lossy`) makes of some bytes:
/// each invalid sequence is replaced with U+FFFD, by rules too long to restate.
pub uninterp spec fn lossy_utf8_text(bytes: Seq<u8>) -> Seq<char>;

/// `core::str::from_utf8`: the bytes read as a string slice, when they are valid
/// UTF-8. Claimed: `Some` exactly for valid UTF-8, and the slice then holds the
/// very same bytes.
#[verifier::external_body]
pub(crate) fn utf8_str(bytes: &[u8]) -> (r: Option<&str>)
    ensures
        r is Some <==> valid_utf8(bytes@),
        r matches Some(s) ==> encode_utf8(s@) == bytes@,
{
    core::str::from_utf8(bytes).ok()
}

/// `String::from_utf8_lossy`, taken as an owned `String`. Claimed: the text is
/// a function of the bytes alone (named `lossy_utf8_text`), and for valid UTF-8
/// it is the decoded text itself. How invalid sequences are replaced is left
/// to the name.
#[verifier::external_body]
pub(crate) fn lossy_utf8(bytes: &[u8]) -> (s: String)
    ensures
        s@ == lossy_utf8_text(bytes@),
        valid_utf8(bytes@) ==> s@ == decode_utf8(bytes@),
{
    String::from_utf8_lossy(bytes).into_owned()
}

/// The text of a string slice is the decoding of its bytes.
pub proof fn lemma_str_decodes(s: &str)
    ensures
        s@ == decode_utf8(encode_utf8(s@)),
{
    encode_utf8_decode_utf8(s@);
}

/// The number of characters of `p` when `s` begins with `p` (`str::strip_prefix`).
pub fn strip_prefix_len(s: &[char], p: &str) -> (r: Option<usize>)
    ensures
        match r {
            Some(k) => k <= s@.len() && strip_prefix(s@, p@) == Some(s@.skip(k as int)),
            None => strip_prefix(s@, p@) is None,
        },
{
    let pc = chars_of(p);
    if occurs_at_index(s, pc.as_slice(), 0) {
        Some(pc.len())
    } else {
        None
    }
}

/// Whether `s` begins with `p` (`str::starts_with`).
pub fn starts_with_str(s: &[char], p: &str) -> (b: bool)
    ensures
        b == starts_with(s@, p@),
{
    let pc = chars_of(p);
    occurs_at_index(s, pc.as_slice(), 0)
}

/// Whether `a` and `b` hold the same characters.
pub fn chars_eq(a: &[char], b: &[char]) -> (r: bool)
    ensures
        r == (a@ == b@),
{
    if a.len() != b.len() {
        return false;
    }
    let mut i: usize = 0;
    while i < a.len()
        invariant
            a@.len() == b@.len(),
            i <= a@.len(),
            forall|k: int| 0 <= k < i ==> a@[k] == b@[k],
        decreases a@.len() - i,
    {
        if a[i] != b[i] {
            return false;
        }
        i = i + 1;
    }
    assert(a@ =~= b@);
    true
}

/// Appends the characters `s[lo..hi]` to `v`.
pub fn push_chars(v: &mut Vec<char>, s: &[char], lo: usize, hi: usize)
    requires
        lo <= hi <= s@.len(),
    ensures
        final(v)@ == old(v)@ + s@.subrange(lo as int, hi as int),
{
    let mut i = lo;
    while i < hi
        invariant
            lo <= i <= hi <= s@.len(),
            v@ == old(v)@ + s@.subrange(lo as int, i as int),
        decreases hi - i,
    {
        v.push(s[i]);
        i = i + 1;
        assert(v@ =~= old(v)@ + s@.subrange(lo as int, i as int));
    }
}

/// A `String` holding the characters `s[lo..hi]`.
pub fn string_of_range(s: &[char], lo: usize, hi: usize) -> (r: String)
    requires
        lo <= hi <= s@.len(),
    ensures
        r@ == s@.subrange(lo as int, hi as int),
{
    let mut v: Vec<char> = Vec::new();
    push_chars(&mut v, s, lo, hi);
    assert(v@ =~= s@.subrange(lo as int, hi as int));
    string_of(v.as_slice())
}

/// The UTF-8 width of one character.
pub open spec fn char_utf8_width(c: char) -> nat {
    let u = c as u32;
    if u < 0x80 {
        1
    } else if u < 0x800 {
        2
    } else if u < 0x10000 {
        3
    } else {
        4
    }
}

/// Encoding a concatenation encodes each part in turn.
pub proof fn lemma_encode_utf8_add(a: Seq<char>, b: Seq<char>)
    ensures
        encode_utf8(a + b) == encode_utf8(a) + encode_utf8(b),
    decreases a.len(),
{
    if a.len() == 0 {
        assert(a + b =~= b);
        assert(encode_utf8(a) =~= Seq::<u8>::empty());
        assert(encode_utf8(a) + encode_utf8(b) =~= encode_utf8(b));
    } else {
        assert((a + b)[0] == a[0]);
        assert((a + b).drop_first() =~= a.drop_first() + b);
        lemma_encode_utf8_add(a.drop_first(), b);
        assert(encode_utf8(a + b) =~= encode_scalar(a[0] as u32) + (encode_utf8(a.drop_first())
            + encode_utf8(b)));
    }
}

/// One more character adds its UTF-8 width to the encoded length.
pub proof fn lemma_utf8_len_push(s: Seq<char>, c: char)
    ensures
        utf8_len(s.push(c)) == utf8_len(s) + char_utf8_width(c),
{
    lemma_encode_utf8_add(s, seq![c]);
    assert(s.push(c) =~= s + seq![c]);
    char_is_scalar(c);
    assert(seq![c].drop_first() =~= Seq::<char>::empty());
    assert(encode_utf8(seq![c]) =~= encode_scalar(c as u32) + encode_utf8(Seq::<char>::empty()));
}

/// The encoded length of a prefix is at most that of the whole.
pub proof fn lemma_utf8_len_prefix(s: Seq<char>, k: int)
    requires
        0 <= k <= s.len(),
    ensures
        utf8_len(s.take(k)) <= utf8_len(s),
{
    lemma_encode_utf8_add(s.take(k), s.skip(k));
    assert(s.take(k) + s.skip(k) =~= s);
}

/// The UTF-8 width of `c` (`char::len_utf8`).
pub fn utf8_width(c: char) -> (w: usize)
    ensures
        w == char_utf8_width(c),
{
    let u = c as u32;
    if u < 0x80 {
        1
    } else if u < 0x800 {
        2
    } else if u < 0x10000 {
        3
    } else {
        4
    }
}

/// The byte offset of every character boundary of a string: entry `k` is the
/// UTF-8 length of the first `k` characters.
pub fn byte_offsets(text: &str) -> (r: (Vec<char>, Vec<usize>))
    ensures
        r.0@ == text@,
        r.1@.len() == text@.len() + 1,
        forall|k: int| 0 <= k <= text@.len() ==> #[trigger] r.1@[k] == utf8_len(text@.take(k)),
{
    let cs = chars_of(text);
    let total = text.as_bytes().len();
    let mut offs: Vec<usize> = Vec::new();
    offs.push(0);
    assert(text@.take(0) =~= Seq::<char>::empty());
    assert(utf8_len(Seq::<char>::empty()) == 0) by {
        assert(encode_utf8(Seq::<char>::empty()) =~= Seq::<u8>::empty());
    }
    let mut acc: usize = 0;
    let mut i: usize = 0;
    while i < cs.len()
        invariant
            cs@ == text@,
            total == utf8_len(text@),
            i <= cs@.len(),
            offs@.len() == i + 1,
            acc == utf8_len(text@.take(i as int)),
            forall|k: int| 0 <= k <= i ==> #[trigger] offs@[k] == utf8_len(text@.take(k)),
        decreases cs@.len() - i,
    {
        proof {
            lemma_utf8_len_push(text@.take(i as int), text@[i as int]);
            assert(text@.take(i as int).push(text@[i as int]) =~= text@.take(i + 1));
            lemma_utf8_len_prefix(text@, i + 1);
        }
        acc = acc + utf8_width(cs[i]);
        offs.push(acc);
        i = i + 1;
    }
    (cs, offs)
}

/// What `trim_start` leaves is empty or begins with a character that is not
/// white space.
pub proof fn lemma_trim_start_shape(s: Seq<char>)
    ensures
        trim_start(s).len() <= s.len(),
        trim_start(s).len() == 0 || !is_white_space(trim_start(s)[0]),
    decreases s.len(),
{
    if s.len() > 0 && is_white_space(s[0]) {
        lemma_trim_start_shape(s.drop_first());
    }
}

/// What `trim_end` leaves is empty or ends with a character that is not white
/// space, and it keeps a first character that is not white space.
pub proof fn lemma_trim_end_shape(s: Seq<char>)
    ensures
        trim_end(s).len() <= s.len(),
        trim_end(s).len() == 0 || !is_white_space(trim_end(s).last()),
        s.len() > 0 && !is_white_space(s[0]) ==> trim_end(s).len() > 0 && trim_end(s)[0]
            == s[0],
    decreases s.len(),
{
    if s.len() > 0 && is_white_space(s.last()) {
        lemma_trim_end_shape(s.drop_last());
        if s.len() > 1 {
            assert(s.drop_last()[0] == s[0]);
        }
    }
}

/// Trimmed text is empty or has no white space at either end, and trimming it
/// again changes nothing.
pub proof fn lemma_trim(s: Seq<char>)
    ensures
        trim(s).len() == 0 || (!is_white_space(trim(s)[0]) && !is_white_space(trim(s).last())),
        trim(trim(s)) == trim(s),
{
    lemma_trim_start_shape(s);
    lemma_trim_end_shape(trim_start(s));
    let t = trim(s);
    assert(trim_start(t) == t);
    assert(trim_end(t) == t);
}

} // verus!
