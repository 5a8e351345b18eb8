//! From raw text to the sequence of `tag=value` tokens of one message.
//!
//! The message begins at the first `8=`. The version field that stands there
//! is recognised by a regular expression; what lies between its end and the
//! next digit is the separator. The text is cut at every separator, each
//! piece is read as `tag=value`, and the sequence ends with the
//! end-of-message tag.

use crate::text::{char_is_digit, is_digit, parse_i32, parse_int, string_of, to_chars};
use vstd::prelude::*;
use vstd::string::*;
use vstd::utf8::*;

verus! {

/// The tag that ends a message.
pub const END_TAG: i32 = 10;

/// Why a text could not be decoded.
#[derive(Debug, Clone, Copy, PartialEq, Eq, Structural)]
pub enum DecodeError {
    /// No version field was found, or no separator follows it.
    MalformedHeader,
    /// The end-of-message tag never came.
    IncompleteMessage,
}

/// One `tag=value` pair of a message.
pub struct TagValue {
    pub tag: i32,
    pub value: String,
}

impl View for TagValue {
    type V = (i32, Seq<char>);

    open spec fn view(&self) -> (i32, Seq<char>) {
        (self.tag, self.value@)
    }
}

/// The tokens of `v` as mathematical values.
pub open spec fn token_seq(v: Seq<TagValue>) -> Seq<(i32, Seq<char>)> {
    v.map_values(|t: TagValue| t@)
}

/// What the tokenizer hands on: the tokens up to and including the
/// end-of-message tag, and the tag of the first token that followed it and
/// was dropped, if there was one.
pub struct TokenStream {
    pub tokens: Vec<TagValue>,
    pub trailing: Option<i32>,
}

/// The regular expression that the version field matches, as the `regex`
/// crate reads it.
pub const VERSION_PATTERN: &'static str = "^8=FIXT?.\\d{1}.\\d{1}";

/// The byte offset that `regex::Regex::shortest_match` returns for the
/// pattern and the haystack; `None` where the pattern does not compile or
/// does not match.
pub uninterp spec fn shortest_match_end(pattern: Seq<char>, haystack: Seq<char>) -> Option<int>;

/// Whether `8=` stands at index `i` of `s`.
pub open spec fn marker_at(s: Seq<char>, i: int) -> bool {
    0 <= i && i + 1 < s.len() && s[i] == '8' && s[i + 1] == '='
}

/// The least index from `from` on at which `8=` stands; the length of `s`
/// where there is none.
pub open spec fn first_marker(s: Seq<char>, from: int) -> int
    decreases s.len() - from,
{
    if from < 0 || from >= s.len() {
        s.len() as int
    } else if marker_at(s, from) {
        from
    } else {
        first_marker(s, from + 1)
    }
}

/// The least index from `from` on that holds a digit; the length of `s`
/// where there is none.
pub open spec fn first_digit(s: Seq<char>, from: int) -> int
    decreases s.len() - from,
{
    if from < 0 || from >= s.len() {
        s.len() as int
    } else if is_digit(s[from]) {
        from
    } else {
        first_digit(s, from + 1)
    }
}

/// The least index from `from` on that holds `=`; the length of `s` where
/// there is none.
pub open spec fn first_equals(s: Seq<char>, from: int) -> int
    decreases s.len() - from,
{
    if from < 0 || from >= s.len() {
        s.len() as int
    } else if s[from] == '=' {
        from
    } else {
        first_equals(s, from + 1)
    }
}

/// The separator that `rest`, the text behind the version field, begins
/// with: everything before its first digit. There is none where no digit
/// follows, or where a digit follows at once.
pub open spec fn separator_of(rest: Seq<char>) -> Option<Seq<char>> {
    let d = first_digit(rest, 0);
    if 0 < d < rest.len() {
        Some(rest.subrange(0, d))
    } else {
        None
    }
}

/// The number of characters that the first `offset` bytes of `s` hold.
pub open spec fn chars_before(s: Seq<char>, offset: int) -> int {
    decode_utf8(encode_utf8(s).subrange(0, offset)).len() as int
}

/// The number of characters of the version field that `body` begins with,
/// if it begins with one.
pub open spec fn version_len(body: Seq<char>) -> Option<int> {
    match shortest_match_end(VERSION_PATTERN@, body) {
        Some(end) => Some(chars_before(body, end)),
        None => None,
    }
}

/// The separator of the message that begins with `body`.
pub open spec fn separator(body: Seq<char>) -> Option<Seq<char>> {
    match version_len(body) {
        Some(k) => separator_of(body.subrange(k, body.len() as int)),
        None => None,
    }
}

/// Whether `sep` stands at index `i` of `s`.
pub open spec fn occurs_at(s: Seq<char>, sep: Seq<char>, i: int) -> bool {
    0 <= i && i + sep.len() <= s.len() && s.subrange(i, i + sep.len()) == sep
}

/// The token that one piece of the message holds, if it holds one: the text
/// before its first `=` is the tag, a positive 32-bit integer, and the text
/// behind that `=` is the value, which may be empty.
pub open spec fn token_of(chunk: Seq<char>) -> Option<(i32, Seq<char>)> {
    let e = first_equals(chunk, 0);
    if e >= chunk.len() {
        None
    } else {
        match parse_int(chunk.subrange(0, e)) {
            Some(tag) => if tag > 0 {
                Some((tag as i32, chunk.subrange(e + 1, chunk.len() as int)))
            } else {
                None
            },
            None => None,
        }
    }
}

/// The tokens of one piece: one or none.
pub open spec fn chunk_tokens(chunk: Seq<char>) -> Seq<(i32, Seq<char>)> {
    match token_of(chunk) {
        Some(t) => seq![t],
        None => Seq::empty(),
    }
}

/// The tokens of `s` from the piece that begins at `start` on, where the
/// search for the next separator stands at `i`. Separators are taken from
/// left to right and do not overlap.
pub open spec fn tokens_from(s: Seq<char>, sep: Seq<char>, start: int, i: int) -> Seq<
    (i32, Seq<char>),
>
    decreases s.len() - i,
{
    if sep.len() == 0 || i < 0 || i + sep.len() > s.len() {
        chunk_tokens(s.subrange(start, s.len() as int))
    } else if occurs_at(s, sep, i) {
        chunk_tokens(s.subrange(start, i)) + tokens_from(s, sep, i + sep.len(), i + sep.len())
    } else {
        tokens_from(s, sep, start, i + 1)
    }
}

/// Every token of `s`, cut at `sep`.
pub open spec fn all_tokens(s: Seq<char>, sep: Seq<char>) -> Seq<(i32, Seq<char>)> {
    tokens_from(s, sep, 0, 0)
}

/// The index of the first token with the end-of-message tag; the length of
/// `tokens` where there is none.
pub open spec fn end_index(tokens: Seq<(i32, Seq<char>)>) -> int
    decreases tokens.len(),
{
    if tokens.len() == 0 {
        0
    } else if tokens[0].0 == END_TAG {
        0
    } else {
        1 + end_index(tokens.drop_first())
    }
}

/// Whether the end-of-message tag occurs in `tokens`.
pub open spec fn has_end(tokens: Seq<(i32, Seq<char>)>) -> bool {
    end_index(tokens) < tokens.len()
}

/// The tokens up to and including the first with the end-of-message tag: what
/// follows it is dropped.
pub open spec fn up_to_end(tokens: Seq<(i32, Seq<char>)>) -> Seq<(i32, Seq<char>)> {
    if has_end(tokens) {
        tokens.take(end_index(tokens) + 1)
    } else {
        tokens
    }
}

/// The tag of the first token behind the end-of-message tag, if one follows.
pub open spec fn trailing_tag(tokens: Seq<(i32, Seq<char>)>) -> Option<i32> {
    if end_index(tokens) + 1 < tokens.len() {
        Some(tokens[end_index(tokens) + 1].0)
    } else {
        None
    }
}

/// Whether `tokens` is the token sequence of a complete message: the
/// end-of-message tag stands last, and nowhere else.
pub open spec fn complete(tokens: Seq<(i32, Seq<char>)>) -> bool {
    tokens.len() > 0 && end_index(tokens) == tokens.len() - 1
}

/// The tokens of the message in `input`, up to the end-of-message tag where
/// it comes; `None` where no version field is found, or no separator behind
/// it.
pub open spec fn message_tokens(input: Seq<char>) -> Option<Seq<(i32, Seq<char>)>> {
    let start = first_marker(input, 0);
    let body = input.subrange(start, input.len() as int);
    if start >= input.len() {
        None
    } else {
        match separator(body) {
            None => None,
            Some(sep) => Some(up_to_end(all_tokens(body, sep))),
        }
    }
}

/// The tokens of the message in `input`, or why it has none.
pub open spec fn tokenize(input: Seq<char>) -> Result<Seq<(i32, Seq<char>)>, DecodeError> {
    match message_tokens(input) {
        None => Err(DecodeError::MalformedHeader),
        Some(tokens) => if complete(tokens) {
            Ok(tokens)
        } else {
            Err(DecodeError::IncompleteMessage)
        },
    }
}

/// The tag of the first token that `input` holds behind its end-of-message
/// tag, if it holds one.
pub open spec fn dropped_tag(input: Seq<char>) -> Option<i32> {
    let start = first_marker(input, 0);
    let body = input.subrange(start, input.len() as int);
    match separator(body) {
        Some(sep) => trailing_tag(all_tokens(body, sep)),
        None => None,
    }
}

/// Compiles `pattern` with `regex::Regex::new` and runs
/// `Regex::shortest_match` on `haystack`. What comes back is the byte offset
/// that the crate reports, `None` where it reports no match or rejects the
/// pattern. The crate documents that every offset it returns lies on a
/// character boundary of the haystack; nothing else is claimed of it.
#[verifier::external_body]
fn shortest_match(pattern: &str, haystack: &str) -> (end: Option<usize>)
    ensures
        match end {
            Some(e) => shortest_match_end(pattern@, haystack@) == Some(e as int)
                && is_char_boundary(haystack.spec_bytes(), e as int),
            None => shortest_match_end(pattern@, haystack@) is None,
        },
{
    match regex::Regex::new(pattern) {
        Ok(re) => re.shortest_match(haystack),
        Err(_) => None,
    }
}

/// Finds the first `8=` of `s`.
pub fn find_marker(s: &Vec<char>) -> (r: usize)
    ensures
        r == first_marker(s@, 0),
        r <= s.len(),
{
    let n = s.len();
    let mut i: usize = 0;
    while i < n
        invariant
            i <= n,
            n == s.len(),
            first_marker(s@, 0) == first_marker(s@, i as int),
        decreases n - i,
    {
        if i + 1 < n && s[i] == '8' && s[i + 1] == '=' {
            return i;
        }
        i += 1;
    }
    n
}

/// Finds the first digit of `s` from `from` on.
pub fn find_digit(s: &Vec<char>, from: usize) -> (r: usize)
    requires
        from <= s.len(),
    ensures
        from <= r <= s.len(),
        r - from == first_digit(s@.subrange(from as int, s.len() as int), 0),
{
    let n = s.len();
    let ghost rest = s@.subrange(from as int, n as int);
    let mut i: usize = from;
    while i < n
        invariant
            from <= i <= n,
            n == s.len(),
            rest == s@.subrange(from as int, n as int),
            first_digit(rest, 0) == first_digit(rest, i - from),
        decreases n - i,
    {
        if char_is_digit(s[i]) {
            return i;
        }
        i += 1;
    }
    n
}

/// Finds the first `=` of `s` between `from` and `to`.
pub fn find_equals(s: &Vec<char>, from: usize, to: usize) -> (r: usize)
    requires
        from <= to <= s.len(),
    ensures
        from <= r <= to,
        r - from == first_equals(s@.subrange(from as int, to as int), 0),
{
    let ghost chunk = s@.subrange(from as int, to as int);
    let mut i: usize = from;
    while i < to
        invariant
            from <= i <= to <= s.len(),
            chunk == s@.subrange(from as int, to as int),
            first_equals(chunk, 0) == first_equals(chunk, i - from),
        decreases to - i,
    {
        if s[i] == '=' {
            return i;
        }
        i += 1;
    }
    to
}

/// The characters of `s` from `from` up to `to`.
pub fn slice_of(s: &Vec<char>, from: usize, to: usize) -> (r: Vec<char>)
    requires
        from <= to <= s.len(),
    ensures
        r@ == s@.subrange(from as int, to as int),
{
    let mut r: Vec<char> = Vec::new();
    let mut i: usize = from;
    while i < to
        invariant
            from <= i <= to <= s.len(),
            r@ == s@.subrange(from as int, i as int),
        decreases to - i,
    {
        r.push(s[i]);
        i += 1;
    }
    r
}

/// The separator that stands behind the version field, which takes the first
/// `k` characters of `body`.
pub fn separator_after(body: &Vec<char>, k: usize) -> (r: Option<Vec<char>>)
    requires
        k <= body.len(),
    ensures
        match r {
            Some(sep) => separator_of(body@.subrange(k as int, body.len() as int)) == Some(sep@)
                && sep.len() > 0,
            None => separator_of(body@.subrange(k as int, body.len() as int)) is None,
        },
{
    let d = find_digit(body, k);
    if k < d && d < body.len() {
        let sep = slice_of(body, k, d);
        Some(sep)
    } else {
        None
    }
}

/// Finds the separator of the message that `fix_msg` begins with: what
/// stands between the version field and the first digit behind it.
pub fn get_separator(fix_msg: &str) -> (r: Option<Vec<char>>)
    ensures
        match r {
            Some(sep) => separator(fix_msg@) == Some(sep@) && sep.len() > 0,
            None => separator(fix_msg@) is None,
        },
{
    match shortest_match(VERSION_PATTERN, fix_msg) {
        None => None,
        Some(end) => {
            let (version, rest) = fix_msg.split_at(end);
            proof {
                let bytes = fix_msg.spec_bytes();
                encode_utf8_valid_utf8(fix_msg@);
                decode_utf8_split(bytes, end as int);
                encode_utf8_decode_utf8(fix_msg@);
                encode_utf8_decode_utf8(version@);
                encode_utf8_decode_utf8(rest@);
                assert(rest@ =~= fix_msg@.subrange(
                    chars_before(fix_msg@, end as int),
                    fix_msg@.len() as int,
                ));
            }
            let behind = to_chars(rest);
            assert(behind@.subrange(0, behind.len() as int) =~= behind@);
            separator_after(&behind, 0)
        },
    }
}

/// Tells whether `sep` stands at index `i` of `s`.
pub fn matches_at(s: &Vec<char>, sep: &Vec<char>, i: usize) -> (r: bool)
    requires
        i + sep.len() <= s.len(),
    ensures
        r == occurs_at(s@, sep@, i as int),
{
    let m = sep.len();
    let mut j: usize = 0;
    while j < m
        invariant
            j <= m,
            m == sep.len(),
            i + m <= s.len(),
            forall|k: int| 0 <= k < j ==> s@[i + k] == sep@[k],
        decreases m - j,
    {
        if s[i + j] != sep[j] {
            return false;
        }
        j += 1;
    }
    assert(s@.subrange(i as int, i + m) =~= sep@);
    true
}

/// Reads the piece of `s` between `from` and `to` as a token.
pub fn parse_token(s: &Vec<char>, from: usize, to: usize) -> (r: Option<TagValue>)
    requires
        from <= to <= s.len(),
    ensures
        match r {
            Some(t) => token_of(s@.subrange(from as int, to as int)) == Some(t@),
            None => token_of(s@.subrange(from as int, to as int)) is None,
        },
{
    let ghost chunk = s@.subrange(from as int, to as int);
    let e = find_equals(s, from, to);
    if e >= to {
        return None;
    }
    assert(chunk.subrange(0, e - from) =~= s@.subrange(from as int, e as int));
    match parse_i32(s, from, e) {
        Some(tag) => {
            if tag > 0 {
                Some(TagValue { tag, value: string_of(s, e + 1, to) })
            } else {
                None
            }
        },
        None => None,
    }
}

/// `first_marker` gives the least index at which `8=` stands.
pub proof fn law_first_marker_is_least(s: Seq<char>, from: int)
    requires
        0 <= from <= s.len(),
    ensures
        from <= first_marker(s, from) <= s.len(),
        first_marker(s, from) < s.len() ==> marker_at(s, first_marker(s, from)),
        forall|i: int| from <= i < first_marker(s, from) ==> !marker_at(s, i),
    decreases s.len() - from,
{
    if from < s.len() && !marker_at(s, from) {
        law_first_marker_is_least(s, from + 1);
    }
}

/// `first_digit` gives the least index that holds a digit.
pub proof fn law_first_digit_is_least(s: Seq<char>, from: int)
    requires
        0 <= from <= s.len(),
    ensures
        from <= first_digit(s, from) <= s.len(),
        first_digit(s, from) < s.len() ==> is_digit(s[first_digit(s, from)]),
        forall|i: int| from <= i < first_digit(s, from) ==> !is_digit(#[trigger] s[i]),
    decreases s.len() - from,
{
    if from < s.len() && !is_digit(s[from]) {
        law_first_digit_is_least(s, from + 1);
    }
}

/// `first_equals` gives the least index that holds `=`.
pub proof fn law_first_equals_is_least(s: Seq<char>, from: int)
    requires
        0 <= from <= s.len(),
    ensures
        from <= first_equals(s, from) <= s.len(),
        first_equals(s, from) < s.len() ==> s[first_equals(s, from)] == '=',
        forall|i: int| from <= i < first_equals(s, from) ==> #[trigger] s[i] != '=',
    decreases s.len() - from,
{
    if from < s.len() && s[from] != '=' {
        law_first_equals_is_least(s, from + 1);
    }
}

/// Where the end-of-message tag first stands: within bounds it holds that
/// tag, and no token before it does.
pub proof fn lemma_end_index(tokens: Seq<(i32, Seq<char>)>)
    ensures
        0 <= end_index(tokens) <= tokens.len(),
        has_end(tokens) ==> tokens[end_index(tokens)].0 == END_TAG,
        forall|j: int| 0 <= j < end_index(tokens) ==> (#[trigger] tokens[j]).0 != END_TAG,
    decreases tokens.len(),
{
    if tokens.len() > 0 && tokens[0].0 != END_TAG {
        let rest = tokens.drop_first();
        lemma_end_index(rest);
        assert forall|j: int| 0 <= j < end_index(tokens) implies (#[trigger] tokens[j]).0
            != END_TAG by {
            if j > 0 {
                assert(tokens[j] == rest[j - 1]);
            }
        }
    }
}

/// The first end-of-message tag of two sequences put together stands in the
/// first where that has one, and else where it stands in the second.
pub proof fn lemma_end_index_concat(a: Seq<(i32, Seq<char>)>, b: Seq<(i32, Seq<char>)>)
    ensures
        has_end(a) ==> end_index(a + b) == end_index(a),
        !has_end(a) ==> end_index(a + b) == a.len() + end_index(b),
    decreases a.len(),
{
    lemma_end_index(a);
    if a.len() > 0 {
        assert((a + b).drop_first() =~= a.drop_first() + b);
        if a[0].0 != END_TAG {
            lemma_end_index_concat(a.drop_first(), b);
        }
    }
}

/// Where the end-of-message tag stands in a sequence of one token.
proof fn lemma_end_index_single(t: (i32, Seq<char>))
    ensures
        end_index(seq![t]) == if t.0 == END_TAG {
            0int
        } else {
            1int
        },
{
    let s = seq![t];
    assert(end_index(s.drop_first()) == 0);
}

/// What is kept of a token sequence is complete where the sequence holds the
/// end-of-message tag, and is the whole sequence where it does not.
pub proof fn lemma_up_to_end(tokens: Seq<(i32, Seq<char>)>)
    ensures
        complete(up_to_end(tokens)) == has_end(tokens),
        !has_end(tokens) ==> up_to_end(tokens) == tokens,
        up_to_end(up_to_end(tokens)) == up_to_end(tokens),
{
    lemma_end_index(tokens);
    if has_end(tokens) {
        let kept = tokens.take(end_index(tokens) + 1);
        let dropped = tokens.skip(end_index(tokens) + 1);
        lemma_end_index(kept);
        lemma_end_index_concat(kept, dropped);
        if !has_end(kept) {
            assert(kept[end_index(tokens)] == tokens[end_index(tokens)]);
        }
    }
}

/// Cuts `s` at every `sep` and reads the pieces as tokens, up to the
/// end-of-message tag. Gives the tokens, and the tag of the first token
/// behind the end-of-message tag.
pub fn split_tokens(s: &Vec<char>, sep: &Vec<char>) -> (r: TokenStream)
    requires
        sep.len() > 0,
    ensures
        token_seq(r.tokens@) == up_to_end(all_tokens(s@, sep@)),
        r.trailing == trailing_tag(all_tokens(s@, sep@)),
{
    let n = s.len();
    let m = sep.len();
    let ghost all = all_tokens(s@, sep@);
    let mut tokens: Vec<TagValue> = Vec::new();
    let mut ended = false;
    let mut start: usize = 0;
    let mut i: usize = 0;
    let mut done = false;
    while !done
        invariant
            n == s.len(),
            m == sep.len(),
            m > 0,
            all == all_tokens(s@, sep@),
            start <= i <= n,
            !done ==> all == token_seq(tokens@) + tokens_from(s@, sep@, start as int, i as int),
            done ==> all == token_seq(tokens@),
            ended == has_end(token_seq(tokens@)),
            ended ==> complete(token_seq(tokens@)),
        decreases n - i + (if done { 0int } else { 1int }),
    {
        let at_end = n - i < m;
        let hit = !at_end && matches_at(s, sep, i);
        if at_end || hit {
            let stop = if at_end {
                n
            } else {
                i
            };
            let ghost seen = token_seq(tokens@);
            let ghost rest = if at_end {
                Seq::<(i32, Seq<char>)>::empty()
            } else {
                tokens_from(s@, sep@, i + m, i + m)
            };
            match parse_token(s, start, stop) {
                Some(t) => {
                    proof {
                        lemma_end_index(seen);
                        lemma_end_index_concat(seen, seq![t@] + rest);
                        lemma_end_index_concat(seq![t@], rest);
                    }
                    if ended {
                        return TokenStream { tokens, trailing: Some(t.tag) };
                    }
                    ended = t.tag == END_TAG;
                    tokens.push(t);
                    proof {
                        let now = token_seq(tokens@);
                        assert(now =~= seen + seq![t@]);
                        lemma_end_index_concat(seen, seq![t@]);
                        lemma_end_index_single(t@);
                    }
                },
                None => {},
            }
            if at_end {
                done = true;
            } else {
                start = i + m;
                i = start;
            }
        } else {
            i += 1;
        }
    }
    proof {
        lemma_end_index(all);
    }
    TokenStream { tokens, trailing: None }
}

/// Reads the message in `input_message`: finds where it begins and what
/// separates its fields, and gives its tokens up to the end-of-message tag.
///
/// There is no result where no version field or no separator is found.
/// Pieces without `=`, or whose tag is not a positive integer, are left out;
/// a value may be empty.
pub fn pre_process_message(input_message: &str) -> (r: Option<TokenStream>)
    ensures
        match r {
            Some(stream) => message_tokens(input_message@) == Some(token_seq(stream.tokens@))
                && stream.trailing == dropped_tag(input_message@),
            None => message_tokens(input_message@) is None,
        },
{
    let chars = to_chars(input_message);
    let start_offset = find_marker(&chars);
    if start_offset >= chars.len() {
        return None;
    }
    let fix_msg = input_message.substring_char(start_offset, chars.len());
    match get_separator(fix_msg) {
        None => None,
        Some(field_separator) => Some(split_tokens(&to_chars(fix_msg), &field_separator)),
    }
}

} // verus!
