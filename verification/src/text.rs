//! Byte-level scanning of UTF-8 text for the placeholder delimiters.
//!
//! Both braces are ASCII, so they can be searched for in the UTF-8 bytes of a
//! text without decoding it: in valid UTF-8 a byte below `0x80` is always a
//! whole character.
use vstd::prelude::*;
use vstd::string::*;
use vstd::utf8::*;

verus! {

/// The byte of `{`.
pub const LEFT_BRACE: u8 = 0x7b;

/// The byte of `}`.
pub const RIGHT_BRACE: u8 = 0x7d;

/// True when the opening delimiter `{{` starts at index `i` of `s`.
pub open spec fn opens_at(s: Seq<u8>, i: int) -> bool {
    0 <= i && i + 2 <= s.len() && s[i] == LEFT_BRACE && s[i + 1] == LEFT_BRACE
}

/// True when the closing delimiter `}}` starts at index `i` of `s`.
pub open spec fn closes_at(s: Seq<u8>, i: int) -> bool {
    0 <= i && i + 2 <= s.len() && s[i] == RIGHT_BRACE && s[i + 1] == RIGHT_BRACE
}

/// True when `b` is one of the two braces.
pub open spec fn is_brace(b: u8) -> bool {
    b == LEFT_BRACE || b == RIGHT_BRACE
}

/// The least index at or after `from` at which `{{` starts, if there is one.
pub open spec fn find_open(s: Seq<u8>, from: int) -> Option<int>
    decreases s.len() - from,
{
    if from < 0 || from + 2 > s.len() {
        None
    } else if opens_at(s, from) {
        Some(from)
    } else {
        find_open(s, from + 1)
    }
}

/// The least index at or after `from` that holds a brace, if there is one.
pub open spec fn find_brace(s: Seq<u8>, from: int) -> Option<int>
    decreases s.len() - from,
{
    if from < 0 || from >= s.len() {
        None
    } else if is_brace(s[from]) {
        Some(from)
    } else {
        find_brace(s, from + 1)
    }
}

/// `find_open` returns the first opening delimiter at or after `from`, and
/// `None` exactly when there is none.
pub proof fn lemma_find_open(s: Seq<u8>, from: int)
    requires
        0 <= from,
    ensures
        match find_open(s, from) {
            Some(k) => from <= k && opens_at(s, k) && forall|j: int|
                from <= j < k ==> !opens_at(s, j),
            None => forall|j: int| from <= j ==> !opens_at(s, j),
        },
    decreases s.len() - from,
{
    if from + 2 > s.len() {
    } else if opens_at(s, from) {
    } else {
        lemma_find_open(s, from + 1);
    }
}

/// `find_brace` returns the first brace at or after `from`, and `None` exactly
/// when there is none.
pub proof fn lemma_find_brace(s: Seq<u8>, from: int)
    requires
        0 <= from,
    ensures
        match find_brace(s, from) {
            Some(k) => from <= k < s.len() && is_brace(s[k]) && forall|j: int|
                from <= j < k ==> !is_brace(#[trigger] s[j]),
            None => forall|j: int| from <= j < s.len() ==> !is_brace(#[trigger] s[j]),
        },
    decreases s.len() - from,
{
    if from >= s.len() {
    } else if is_brace(s[from]) {
    } else {
        lemma_find_brace(s, from + 1);
    }
}

/// Whether `{{` starts at index `i` of `s`.
pub fn starts_open(s: &[u8], i: usize) -> (r: bool)
    ensures
        r == opens_at(s@, i as int),
{
    i < s.len() && s.len() - i >= 2 && s[i] == LEFT_BRACE && s[i + 1] == LEFT_BRACE
}

/// Whether `}}` starts at index `i` of `s`.
pub fn starts_close(s: &[u8], i: usize) -> (r: bool)
    ensures
        r == closes_at(s@, i as int),
{
    i < s.len() && s.len() - i >= 2 && s[i] == RIGHT_BRACE && s[i + 1] == RIGHT_BRACE
}

/// Searches `s` from index `from` on for the opening delimiter `{{`.
pub fn search_open(s: &[u8], from: usize) -> (r: Option<usize>)
    ensures
        match r {
            Some(k) => find_open(s@, from as int) == Some(k as int),
            None => find_open(s@, from as int) is None,
        },
{
    let mut i: usize = from;
    while i < s.len() && s.len() - i >= 2
        invariant
            from <= i,
            find_open(s@, from as int) == find_open(s@, i as int),
        decreases s.len() - i,
    {
        if s[i] == LEFT_BRACE && s[i + 1] == LEFT_BRACE {
            return Some(i);
        }
        i += 1;
    }
    None
}

/// Searches `s` from index `from` on for a brace.
pub fn search_brace(s: &[u8], from: usize) -> (r: Option<usize>)
    ensures
        match r {
            Some(k) => find_brace(s@, from as int) == Some(k as int),
            None => find_brace(s@, from as int) is None,
        },
{
    let mut i: usize = from;
    while i < s.len()
        invariant
            from <= i,
            find_brace(s@, from as int) == find_brace(s@, i as int),
        decreases s.len() - i,
    {
        if s[i] == LEFT_BRACE || s[i] == RIGHT_BRACE {
            return Some(i);
        }
        i += 1;
    }
    None
}

/// In valid UTF-8 an ASCII byte is a whole character: its index and the index
/// after it are both character boundaries.
pub proof fn lemma_ascii_boundaries(s: Seq<u8>, i: int)
    requires
        valid_utf8(s),
        0 <= i < s.len(),
        s[i] < 0x80,
    ensures
        is_char_boundary(s, i),
        is_char_boundary(s, i + 1),
{
    is_char_boundary_iff_not_is_continuation_byte(s, i);
    if i + 1 == s.len() {
        is_char_boundary_start_end_of_seq(s);
    } else {
        valid_utf8_split(s, i);
        let t = s.subrange(i, s.len() as int);
        assert(t[0] == s[i]);
        let u = pop_first_scalar(t);
        assert(valid_utf8(u));
        assert(u.len() > 0);
        assert(valid_first_scalar(u));
        assert(u[0] == s[i + 1]);
        is_char_boundary_iff_not_is_continuation_byte(s, i + 1);
    }
}

/// The part of `s` between the byte offsets `from` and `to`.
pub fn between<'a>(s: &'a str, from: usize, to: usize) -> (r: &'a str)
    requires
        from <= to <= s.spec_bytes().len(),
        is_char_boundary(s.spec_bytes(), from as int),
        is_char_boundary(s.spec_bytes(), to as int),
    ensures
        r.spec_bytes() == s.spec_bytes().subrange(from as int, to as int),
        r@ == decode_utf8(s.spec_bytes().subrange(from as int, to as int)),
{
    broadcast use {encode_utf8_valid_utf8, encode_utf8_decode_utf8};

    let (head, _) = s.split_at(to);
    proof {
        if from < to {
            is_char_boundary_iff_not_is_continuation_byte(s.spec_bytes(), from as int);
            is_char_boundary_iff_not_is_continuation_byte(head.spec_bytes(), from as int);
        } else {
            is_char_boundary_start_end_of_seq(head.spec_bytes());
        }
    }
    let (_, r) = head.split_at(from);
    assert(r.spec_bytes() =~= s.spec_bytes().subrange(from as int, to as int));
    assert(r@ == decode_utf8(encode_utf8(r@)));
    r
}

/// True for the characters that Unicode gives the property `White_Space`.
pub open spec fn is_whitespace(c: char) -> bool {
    let u = c as u32;
    ||| 0x09 <= u <= 0x0d
    ||| u == 0x20
    ||| u == 0x85
    ||| u == 0xa0
    ||| u == 0x1680
    ||| 0x2000 <= u <= 0x200a
    ||| u == 0x2028
    ||| u == 0x2029
    ||| u == 0x202f
    ||| u == 0x205f
    ||| u == 0x3000
}

/// `s` without its leading whitespace.
pub open spec fn trim_start(s: Seq<char>) -> Seq<char>
    decreases s.len(),
{
    if s.len() > 0 && is_whitespace(s[0]) {
        trim_start(s.drop_first())
    } else {
        s
    }
}

/// `s` without its trailing whitespace.
pub open spec fn trim_end(s: Seq<char>) -> Seq<char>
    decreases s.len(),
{
    if s.len() > 0 && is_whitespace(s.last()) {
        trim_end(s.drop_last())
    } else {
        s
    }
}

/// `s` without its leading and trailing whitespace.
pub open spec fn trimmed(s: Seq<char>) -> Seq<char> {
    trim_end(trim_start(s))
}

/// Calls `str::trim`, which std documents as returning the sub-slice of `s`
/// with leading and trailing whitespace removed, whitespace being the
/// characters with the Unicode property `White_Space`. The contract says
/// that in terms of [`trimmed`]; it is believed, not proved.
#[verifier::external_body]
pub(crate) fn trim<'a>(s: &'a str) -> (r: &'a str)
    ensures
        r@ == trimmed(s@),
{
    s.trim()
}

/// True when every character of `s` is whitespace.
pub open spec fn all_whitespace(s: Seq<char>) -> bool {
    forall|i: int| 0 <= i < s.len() ==> is_whitespace(#[trigger] s[i])
}

/// True when `s` neither begins nor ends with whitespace.
pub open spec fn is_trim(s: Seq<char>) -> bool {
    s.len() > 0 ==> !is_whitespace(s.first()) && !is_whitespace(s.last())
}

/// True when no character of `s` is a brace.
pub open spec fn brace_free(s: Seq<char>) -> bool {
    forall|i: int| 0 <= i < s.len() ==> #[trigger] s[i] != '{' && s[i] != '}'
}

/// Whitespace in front of a text does not change what `trim_start` leaves.
pub proof fn lemma_trim_start_skips(pre: Seq<char>, s: Seq<char>)
    requires
        all_whitespace(pre),
    ensures
        trim_start(pre + s) == trim_start(s),
    decreases pre.len(),
{
    if pre.len() == 0 {
        assert(pre + s =~= s);
    } else {
        assert((pre + s)[0] == pre[0]);
        assert((pre + s).drop_first() =~= pre.drop_first() + s);
        assert(all_whitespace(pre.drop_first())) by {
            assert forall|i: int| 0 <= i < pre.drop_first().len() implies is_whitespace(
                #[trigger] pre.drop_first()[i],
            ) by {
                assert(pre.drop_first()[i] == pre[i + 1]);
            }
        }
        lemma_trim_start_skips(pre.drop_first(), s);
    }
}

/// Whitespace behind a text does not change what `trim_end` leaves.
pub proof fn lemma_trim_end_skips(s: Seq<char>, post: Seq<char>)
    requires
        all_whitespace(post),
    ensures
        trim_end(s + post) == trim_end(s),
    decreases post.len(),
{
    if post.len() == 0 {
        assert(s + post =~= s);
    } else {
        assert((s + post).last() == post.last());
        assert((s + post).drop_last() =~= s + post.drop_last());
        assert(all_whitespace(post.drop_last())) by {
            assert forall|i: int| 0 <= i < post.drop_last().len() implies is_whitespace(
                #[trigger] post.drop_last()[i],
            ) by {
                assert(post.drop_last()[i] == post[i]);
            }
        }
        lemma_trim_end_skips(s, post.drop_last());
    }
}

/// What `trim_start` leaves is empty or begins with a character that is no
/// whitespace; it is the end of the text, so it ends as the text does.
pub proof fn lemma_trim_start_shape(s: Seq<char>)
    ensures
        trim_start(s).len() <= s.len(),
        trim_start(s) == s.skip(s.len() - trim_start(s).len()),
        trim_start(s).len() > 0 ==> !is_whitespace(trim_start(s).first()),
    decreases s.len(),
{
    if s.len() > 0 && is_whitespace(s[0]) {
        lemma_trim_start_shape(s.drop_first());
        let t = trim_start(s);
        assert(t =~= s.skip(s.len() - t.len()));
    } else {
        assert(s =~= s.skip(0));
    }
}

/// What `trim_end` leaves is empty or ends with a character that is no
/// whitespace; it is the beginning of the text, so it begins as the text does.
pub proof fn lemma_trim_end_shape(s: Seq<char>)
    ensures
        trim_end(s).len() <= s.len(),
        trim_end(s) == s.take(trim_end(s).len() as int),
        trim_end(s).len() > 0 ==> !is_whitespace(trim_end(s).last()),
    decreases s.len(),
{
    if s.len() > 0 && is_whitespace(s.last()) {
        lemma_trim_end_shape(s.drop_last());
        let t = trim_end(s);
        assert(t =~= s.take(t.len() as int));
    } else {
        assert(s =~= s.take(s.len() as int));
    }
}

/// Trimming leaves a text that neither begins nor ends with whitespace.
pub proof fn lemma_trimmed_is_trim(s: Seq<char>)
    ensures
        is_trim(trimmed(s)),
{
    lemma_trim_start_shape(s);
    lemma_trim_end_shape(trim_start(s));
}

/// Trimming changes nothing in a text that neither begins nor ends with
/// whitespace.
pub proof fn lemma_trim_of_trim(s: Seq<char>)
    requires
        is_trim(s),
    ensures
        trimmed(s) == s,
{
}

/// Trimming twice is trimming once.
pub proof fn law_trim_idempotent(s: Seq<char>)
    ensures
        trimmed(trimmed(s)) == trimmed(s),
{
    lemma_trimmed_is_trim(s);
    lemma_trim_of_trim(trimmed(s));
}

/// Whitespace added in front of a text and behind it is trimmed away with the
/// text's own.
pub proof fn law_trim_padding(pre: Seq<char>, s: Seq<char>, post: Seq<char>)
    requires
        all_whitespace(pre),
        all_whitespace(post),
    ensures
        trimmed(pre + s + post) == trimmed(s),
{
    assert(pre + s + post =~= pre + (s + post));
    lemma_trim_start_skips(pre, s + post);
    lemma_trim_start_before_padding(s, post);
}

/// Whitespace behind a text does not change what trimming leaves.
proof fn lemma_trim_start_before_padding(s: Seq<char>, post: Seq<char>)
    requires
        all_whitespace(post),
    ensures
        trim_end(trim_start(s + post)) == trim_end(trim_start(s)),
    decreases s.len(),
{
    if s.len() == 0 {
        assert(s + post =~= post + s);
        lemma_trim_start_skips(post, s);
    } else if is_whitespace(s[0]) {
        assert((s + post)[0] == s[0]);
        assert((s + post).drop_first() =~= s.drop_first() + post);
        lemma_trim_start_before_padding(s.drop_first(), post);
    } else {
        assert((s + post)[0] == s[0]);
        lemma_trim_end_skips(s, post);
    }
}

/// The UTF-8 bytes of two texts put together are the bytes of the first
/// followed by the bytes of the second.
pub proof fn lemma_encode_concat(a: Seq<char>, b: Seq<char>)
    ensures
        encode_utf8(a + b) == encode_utf8(a) + encode_utf8(b),
    decreases a.len(),
{
    if a.len() == 0 {
        assert(a + b =~= b);
        assert(encode_utf8(a) + encode_utf8(b) =~= encode_utf8(b));
    } else {
        assert((a + b)[0] == a[0]);
        assert((a + b).drop_first() =~= a.drop_first() + b);
        lemma_encode_concat(a.drop_first(), b);
        assert(encode_utf8(a + b) =~= encode_utf8(a) + encode_utf8(b));
    }
}

/// A brace among the UTF-8 bytes of a character is the character itself: the
/// bytes of a character that takes more than one are all `0x80` or above.
pub proof fn lemma_scalar_bytes(c: char)
    ensures
        forall|j: int|
            0 <= j < encode_scalar(c as u32).len() && is_brace(
                #[trigger] encode_scalar(c as u32)[j],
            ) ==> c == '{' || c == '}',
{
    let v = c as u32;
    char_is_scalar(c);
    if has_width_1_encoding(v) {
        assert((v & 0x7F) as u8 == v) by (bit_vector)
            requires
                v <= 0x7F,
        ;
    } else {
        assert((0xC0u8 | ((v >> 6) & 0x1F) as u8) >= 0x80u8) by (bit_vector);
        assert((0xE0u8 | ((v >> 12) & 0x0F) as u8) >= 0x80u8) by (bit_vector);
        assert((0xF0u8 | ((v >> 18) & 0x7) as u8) >= 0x80u8) by (bit_vector);
        assert((0x80u8 | (v & 0x3F) as u8) >= 0x80u8) by (bit_vector);
        assert((0x80u8 | ((v >> 6) & 0x3F) as u8) >= 0x80u8) by (bit_vector);
        assert((0x80u8 | ((v >> 12) & 0x3F) as u8) >= 0x80u8) by (bit_vector);
    }
}

/// The UTF-8 bytes of a text without braces hold no brace.
pub proof fn lemma_encode_brace_free(s: Seq<char>)
    requires
        brace_free(s),
    ensures
        forall|j: int| 0 <= j < encode_utf8(s).len() ==> !is_brace(#[trigger] encode_utf8(s)[j]),
    decreases s.len(),
{
    if s.len() > 0 {
        lemma_scalar_bytes(s[0]);
        assert(brace_free(s.drop_first())) by {
            assert forall|i: int| 0 <= i < s.drop_first().len() implies #[trigger] s.drop_first()[i]
                != '{' && s.drop_first()[i] != '}' by {
                assert(s.drop_first()[i] == s[i + 1]);
            }
        }
        lemma_encode_brace_free(s.drop_first());
        let head = encode_scalar(s[0] as u32);
        let tail = encode_utf8(s.drop_first());
        assert forall|j: int| 0 <= j < encode_utf8(s).len() implies !is_brace(
            #[trigger] encode_utf8(s)[j],
        ) by {
            if j < head.len() {
                assert(encode_utf8(s)[j] == head[j]);
            } else {
                assert(encode_utf8(s)[j] == tail[j - head.len()]);
            }
        }
    }
}

/// The ten digits, in order.
pub open spec fn digits() -> Seq<char> {
    seq!['0', '1', '2', '3', '4', '5', '6', '7', '8', '9']
}

/// The decimal numeral of `n`, without leading zeros.
pub open spec fn decimal(n: nat) -> Seq<char>
    decreases n,
{
    if n < 10 {
        seq![digits()[n as int]]
    } else {
        decimal(n / 10).push(digits()[(n % 10) as int])
    }
}

/// The numeral of one digit.
fn digit(d: u64) -> (r: &'static str)
    requires
        d < 10,
    ensures
        r@ == seq![digits()[d as int]],
{
    let all = "0123456789";
    proof {
        reveal_strlit("0123456789");
        assert(all@ =~= digits());
    }
    let r = all.substring_ascii(d as usize, d as usize + 1);
    assert(r@ =~= seq![digits()[d as int]]);
    r
}

/// Writes `n` as a decimal numeral.
pub fn to_decimal(n: u64) -> (r: String)
    ensures
        r@ == decimal(n as nat),
{
    let mut text = String::from_str(digit(n % 10));
    let mut left: u64 = n / 10;
    while left > 0
        invariant
            left > 0 ==> decimal(n as nat) == decimal(left as nat) + text@,
            left == 0 ==> decimal(n as nat) == text@,
        decreases left,
    {
        let ghost before = text@;
        text = String::from_str(digit(left % 10)).concat(text.as_str());
        proof {
            let d = seq![digits()[(left % 10) as int]];
            if left < 10 {
                assert(decimal(left as nat) == d);
            } else {
                assert(decimal(left as nat) + before =~= decimal((left / 10) as nat) + (d
                    + before));
            }
        }
        left = left / 10;
    }
    text
}

} // verus!
