//! How requests to the bridge and its responses are framed for the helper process.

use crate::bridge::BridgeError;
use crate::managed_hierarchy::{le_bytes, push_le};
use crate::place_values::utf8_text;
use crate::text::{
    chars_of, contains_part, decimal, decimal_text, holds_part, joined, optional_text, push_bytes, starts_with,
    text_bytes, text_of,
};
use crate::transactions::le_number;
use vstd::prelude::*;
use vstd::string::StringSliceAdditionalSpecFns;
use vstd::utf8::{decode_utf8, valid_utf8};

verus! {

// ---------------------------------------------------------------------------
// Requests

/// How many characters at the beginning are slashes.
pub open spec fn leading_slashes(text: Seq<char>) -> int
    decreases text.len(),
{
    if text.len() > 0 && text[0] == '/' {
        1 + leading_slashes(text.skip(1))
    } else {
        0
    }
}

/// A path without the slashes at its beginning.
pub open spec fn relative(path: Seq<char>) -> Seq<char> {
    path.skip(leading_slashes(path))
}

fn trim_slashes(path: &str) -> (rest: String)
    ensures
        rest@ == relative(path@),
{
    let chars: Vec<char> = chars_of(path);
    let mut at: usize = 0;
    proof {
        assert(chars@.skip(0) =~= chars@);
    }
    while at < chars.len() && chars[at] == '/'
        invariant
            at <= chars@.len(),
            chars@ == path@,
            leading_slashes(path@) == at + leading_slashes(path@.skip(at as int)),
        decreases chars@.len() - at,
    {
        proof {
            assert(path@.skip(at as int).skip(1) =~= path@.skip(at + 1));
        }
        at = at + 1;
    }
    let rest: String = text_of(&chars, at, chars.len());
    proof {
        assert(rest@ =~= path@.skip(at as int));
    }
    rest
}

/// The character that stands for six bits.
pub open spec fn base64_char(bits: int) -> char {
    if bits < 26 {
        (65 + bits) as char
    } else if bits < 52 {
        (97 + bits - 26) as char
    } else if bits < 62 {
        (48 + bits - 52) as char
    } else if bits == 62 {
        '+'
    } else {
        '/'
    }
}

/// The base64 form of bytes: four characters for three bytes, the last ones filled up
/// with equals signs.
pub open spec fn base64_text(bytes: Seq<u8>) -> Seq<char>
    decreases bytes.len(),
{
    if bytes.len() == 0 {
        Seq::empty()
    } else {
        let first = bytes[0] as int;
        let second = if bytes.len() > 1 { bytes[1] as int } else { 0 };
        let third = if bytes.len() > 2 { bytes[2] as int } else { 0 };
        seq![
            base64_char(first / 4),
            base64_char(first % 4 * 16 + second / 16),
            if bytes.len() > 1 { base64_char(second % 16 * 4 + third / 64) } else { '=' },
            if bytes.len() > 2 { base64_char(third % 64) } else { '=' },
        ] + base64_text(bytes.skip(if bytes.len() < 3 { bytes.len() as int } else { 3 }))
    }
}

/// `BASE64_STANDARD.encode` of `base64`: the standard alphabet, with padding.
#[verifier::external_body]
fn encode_base64(bytes: &[u8]) -> (text: String)
    ensures
        text@ == base64_text(bytes@),
{
    base64::Engine::encode(&base64::prelude::BASE64_STANDARD, bytes)
}

/// A character that would end the line of a request.
pub open spec fn has_control(path: Seq<char>) -> bool {
    path.contains('\r') || path.contains('\n') || path.contains('\0')
}

/// The path of a request, with one slash at its beginning, or why it is refused: it
/// may hold nothing that ends the line, and no host.
pub open spec fn request_path(path: Seq<char>) -> Result<Seq<char>, BridgeError> {
    let normalized = "/"@ + relative(path);
    if has_control(normalized) {
        Err(BridgeError::ControlCharacters)
    } else if "//"@.is_prefix_of(normalized) || holds_part(normalized, "://"@) {
        Err(BridgeError::SuppliesHost)
    } else {
        Ok(normalized)
    }
}

fn contains_control(path: &str) -> (found: bool)
    ensures
        found == has_control(path@),
{
    let chars: Vec<char> = chars_of(path);
    let mut at: usize = 0;
    while at < chars.len()
        invariant
            at <= chars@.len(),
            chars@ == path@,
            forall|k: int|
                0 <= k < at ==> #[trigger] path@[k] != '\r' && path@[k] != '\n' && path@[k] != '\0',
        decreases chars@.len() - at,
    {
        if chars[at] == '\r' || chars[at] == '\n' || chars[at] == '\0' {
            proof {
                assert(path@.contains(path@[at as int]));
            }
            return true;
        }
        at = at + 1;
    }
    false
}

/// The path of a request, with one slash at its beginning.
pub fn normalize_request_path(path: &str) -> (result: Result<String, BridgeError>)
    ensures
        match request_path(path@) {
            Ok(normalized) => result matches Ok(found) && found@ == normalized,
            Err(error) => result == Err::<String, BridgeError>(error),
        },
{
    let normalized: String = joined("/", trim_slashes(path).as_str());
    if contains_control(normalized.as_str()) {
        return Err(BridgeError::ControlCharacters);
    }
    if starts_with(normalized.as_str(), "//") || contains_part(normalized.as_str(), "://") {
        return Err(BridgeError::SuppliesHost);
    }
    Ok(normalized)
}

/// The path of a request as the helper takes it.
pub fn encode_request_path(path: &str) -> (result: Result<String, BridgeError>)
    ensures
        match request_path(path@) {
            Ok(normalized) => result matches Ok(found) && found@ == base64_text(text_bytes(normalized)),
            Err(error) => result == Err::<String, BridgeError>(error),
        },
{
    match normalize_request_path(path) {
        Ok(normalized) => Ok(encode_base64(normalized.as_str().as_bytes())),
        Err(error) => Err(error),
    }
}

/// Where a request goes: the endpoint, and the path without its slashes.
pub fn request_url(endpoint: &str, path: &str) -> (url: String)
    ensures
        url@ == endpoint@ + relative(path@),
{
    joined(endpoint, trim_slashes(path).as_str())
}

/// What the helper reads: a mark, the token with its length, and the body.
pub fn build_stdin_payload(token: &str, body: &[u8]) -> (payload: Vec<u8>)
    ensures
        payload@ == text_bytes("CBRQ0001"@) + le_bytes(text_bytes(token@).len(), 4) + text_bytes(token@) + body@,
{
    let mut payload: Vec<u8> = Vec::new();
    push_bytes(&mut payload, "CBRQ0001".as_bytes());
    let token_bytes: &[u8] = token.as_bytes();
    push_le(&mut payload, token_bytes.len() as u64, 4);
    push_bytes(&mut payload, token_bytes);
    push_bytes(&mut payload, body);
    proof {
        assert(payload@ =~= text_bytes("CBRQ0001"@) + le_bytes(text_bytes(token@).len(), 4) + text_bytes(token@)
            + body@);
    }
    payload
}

// ---------------------------------------------------------------------------
// Responses

/// The beginning of what the helper answers: a mark, the status, the declared
/// length and the length of the range.
#[derive(Debug)]
pub struct HelperHeader {
    pub status: u32,
    pub content_length: Option<u64>,
    pub range_len: u32,
}

/// What the helper answered.
#[derive(Debug)]
pub struct HelperResponse {
    pub status: u32,
    pub content_length: Option<u64>,
    pub content_range: Option<String>,
    pub body: Vec<u8>,
}

#[verifier::ext_equal]
pub struct ResponseView {
    pub status: u32,
    pub content_length: Option<u64>,
    pub content_range: Option<Seq<char>>,
    pub body: Seq<u8>,
}

impl View for HelperResponse {
    type V = ResponseView;

    open spec fn view(&self) -> ResponseView {
        ResponseView {
            status: self.status,
            content_length: self.content_length,
            content_range: optional_text(self.content_range),
            body: self.body@,
        }
    }
}

/// What stands in a header.
pub open spec fn header_of(bytes: Seq<u8>, process_id: u32) -> Result<HelperHeader, BridgeError> {
    if bytes.len() < 24 {
        Err(BridgeError::NoHeader(process_id))
    } else if bytes.take(8) != text_bytes("CBRS0001"@) {
        Err(BridgeError::InvalidMagic(process_id))
    } else {
        let declared = le_number(bytes.subrange(12, 20));
        Ok(
            HelperHeader {
                status: le_number(bytes.subrange(8, 12)) as u32,
                content_length: if declared == u64::MAX {
                    None
                } else {
                    Some(declared as u64)
                },
                range_len: le_number(bytes.subrange(20, 24)) as u32,
            },
        )
    }
}

/// What the helper answered, or why it cannot be read.
pub open spec fn response_of(bytes: Seq<u8>, process_id: u32) -> Result<ResponseView, BridgeError> {
    match header_of(bytes, process_id) {
        Err(error) => Err(error),
        Ok(header) => {
            let range_end = 24 + header.range_len as int;
            if bytes.len() < range_end {
                Err(BridgeError::NoRange(process_id))
            } else if header.range_len > 0 && !valid_utf8(bytes.subrange(24, range_end)) {
                Err(BridgeError::RangeNotUtf8(process_id))
            } else {
                Ok(
                    ResponseView {
                        status: header.status,
                        content_length: header.content_length,
                        content_range: if header.range_len > 0 {
                            Some(decode_utf8(bytes.subrange(24, range_end)))
                        } else {
                            None
                        },
                        body: bytes.skip(range_end),
                    },
                )
            }
        },
    }
}

proof fn lemma_le_bound(bytes: Seq<u8>, bound: nat)
    requires
        bytes.len() <= 8,
        bound == vstd::arithmetic::power2::pow2(8 * bytes.len()),
    ensures
        le_number(bytes) < bound,
    decreases bytes.len(),
{
    vstd::arithmetic::power2::lemma2_to64();
    if bytes.len() > 0 {
        let rest = bytes.skip(1);
        lemma_le_bound(rest, vstd::arithmetic::power2::pow2(8 * rest.len()));
        vstd::arithmetic::power2::lemma_pow2_adds(8, (8 * rest.len()) as nat);
        assert(8 * bytes.len() == 8 + 8 * rest.len());
        assert(le_number(bytes) == bytes[0] as nat + 256 * le_number(rest));
        assert(vstd::arithmetic::power2::pow2(8) == 256);
        let inner = vstd::arithmetic::power2::pow2(8 * rest.len());
        assert(256 * le_number(rest) + 255 < 256 * inner) by (nonlinear_arith)
            requires
                le_number(rest) < inner,
        ;
        assert(256 * inner == bound) by (nonlinear_arith)
            requires
                bound == vstd::arithmetic::power2::pow2(8) * inner,
                vstd::arithmetic::power2::pow2(8) == 256,
        ;
    }
}

/// Reads a little-endian number of at most eight bytes.
fn read_le(bytes: &[u8], from: usize, len: usize) -> (number: u64)
    requires
        len <= 8,
        from + len <= 24,
        from + len <= bytes@.len(),
    ensures
        number == le_number(bytes@.subrange(from as int, from + len)),
    decreases len,
{
    if len == 0 {
        proof {
            assert(bytes@.subrange(from as int, from + len).len() == 0);
        }
        return 0;
    }
    let rest: u64 = read_le(bytes, from + 1, len - 1);
    proof {
        let all = bytes@.subrange(from as int, from + len);
        assert(all.skip(1) =~= bytes@.subrange(from + 1, from + len));
        vstd::arithmetic::power2::lemma2_to64();
        lemma_le_bound(all, vstd::arithmetic::power2::pow2(8 * all.len()));
        if len < 8 {
            vstd::arithmetic::power2::lemma_pow2_strictly_increases((8 * len) as nat, 64);
        }
        assert(vstd::arithmetic::power2::pow2(64) == 0x1_0000_0000_0000_0000);
    }
    bytes[from] as u64 + 256 * rest
}

/// Whether the first eight bytes are the mark of a response.
fn has_mark(bytes: &[u8]) -> (marked: bool)
    requires
        bytes@.len() >= 8,
    ensures
        marked == (bytes@.take(8) == text_bytes("CBRS0001"@)),
{
    let mark: &[u8] = "CBRS0001".as_bytes();
    if mark.len() != 8 {
        return false;
    }
    let mut at: usize = 0;
    while at < 8
        invariant
            at <= 8,
            bytes@.len() >= 8,
            mark@ == text_bytes("CBRS0001"@),
            mark@.len() == 8,
            forall|k: int| 0 <= k < at ==> bytes@[k] == mark@[k],
        decreases 8 - at,
    {
        if bytes[at] != mark[at] {
            proof {
                assert(bytes@.take(8)[at as int] != mark@[at as int]);
            }
            return false;
        }
        at = at + 1;
    }
    proof {
        assert(bytes@.take(8) =~= mark@);
    }
    true
}

/// Reads the beginning of what the helper answers.
pub fn parse_helper_header(bytes: &[u8], process_id: u32) -> (header: Result<HelperHeader, BridgeError>)
    ensures
        header == header_of(bytes@, process_id),
{
    if bytes.len() < 24 {
        return Err(BridgeError::NoHeader(process_id));
    }
    if !has_mark(bytes) {
        return Err(BridgeError::InvalidMagic(process_id));
    }
    let status: u64 = read_le(bytes, 8, 4);
    let declared: u64 = read_le(bytes, 12, 8);
    let range_len: u64 = read_le(bytes, 20, 4);
    Ok(
        HelperHeader {
            status: status as u32,
            content_length: if declared == u64::MAX {
                None
            } else {
                Some(declared)
            },
            range_len: range_len as u32,
        },
    )
}

fn rest_of(bytes: &[u8], from: usize, to: usize) -> (part: Vec<u8>)
    requires
        from <= to <= bytes@.len(),
    ensures
        part@ == bytes@.subrange(from as int, to as int),
{
    let mut part: Vec<u8> = Vec::new();
    let mut at: usize = from;
    while at < to
        invariant
            from <= at <= to <= bytes@.len(),
            part@ == bytes@.subrange(from as int, at as int),
        decreases to - at,
    {
        part.push(bytes[at]);
        proof {
            assert(bytes@.subrange(from as int, at + 1) =~= bytes@.subrange(from as int, at as int).push(
                bytes@[at as int],
            ));
        }
        at = at + 1;
    }
    part
}

/// Reads what the helper answered.
pub fn parse_helper_stdout(bytes: &[u8], process_id: u32) -> (response: Result<HelperResponse, BridgeError>)
    ensures
        match response_of(bytes@, process_id) {
            Ok(expected) => response matches Ok(found) && found@ == expected,
            Err(error) => response == Err::<HelperResponse, BridgeError>(error),
        },
{
    let header: HelperHeader = match parse_helper_header(bytes, process_id) {
        Ok(header) => header,
        Err(error) => {
            return Err(error);
        },
    };
    let total: usize = bytes.len();
    if total - 24 < header.range_len as usize {
        return Err(BridgeError::NoRange(process_id));
    }
    let range_end: usize = 24 + header.range_len as usize;
    let content_range: Option<String> = if header.range_len > 0 {
        let range: Vec<u8> = rest_of(bytes, 24, range_end);
        match utf8_text(range.as_slice()) {
            Some(text) => Some(text.to_owned()),
            None => {
                return Err(BridgeError::RangeNotUtf8(process_id));
            },
        }
    } else {
        None
    };
    let body: Vec<u8> = rest_of(bytes, range_end, total);
    proof {
        assert(body@ =~= bytes@.skip(range_end as int));
    }
    Ok(HelperResponse { status: header.status, content_length: header.content_length, content_range, body })
}

/// The text of bytes, with a mark in place of what is not UTF-8.
pub uninterp spec fn lossy_reads(bytes: Seq<u8>) -> Seq<char>;

/// `String::from_utf8_lossy`: the text is a function of the bytes alone.
#[verifier::external_body]
fn lossy_text(bytes: &[u8]) -> (text: String)
    ensures
        text@ == lossy_reads(bytes@),
{
    String::from_utf8_lossy(bytes).into_owned()
}

/// A status that stands for success.
pub open spec fn is_success(status: u32) -> bool {
    200 <= status <= 299
}

/// Why a response is refused: it failed, or it is not as long as it declares.
/// `detail` is what a failed response says.
pub open spec fn refused_response(response: ResponseView, path: Seq<char>, detail: Seq<char>) -> Option<Seq<char>> {
    if !is_success(response.status) {
        Some(failed_text(path, response.status, detail))
    } else {
        match response.content_length {
            Some(declared) if declared != response.body.len() => Some(
                "RML bridge artifact length mismatch: declared "@ + decimal(declared as nat) + ", received "@
                    + decimal(response.body.len()),
            ),
            _ => None,
        }
    }
}

/// What is said of a failed request.
pub open spec fn failed_text(path: Seq<char>, status: u32, detail: Seq<char>) -> Seq<char> {
    "RML bridge "@ + path + " returned "@ + decimal(status as nat) + ": "@ + detail
}

/// Judges a response, given what a failed one says.
pub fn judge_response(response: &HelperResponse, path: &str, detail: String) -> (result: Result<(), BridgeError>)
    ensures
        match refused_response(response@, path@, detail@) {
            Some(text) => result matches Err(error) && error.text() == text,
            None => result is Ok,
        },
{
    if !(200 <= response.status && response.status <= 299) {
        return Err(BridgeError::Status { path: path.to_owned(), status: response.status, detail });
    }
    match response.content_length {
        Some(declared) => {
            let received: u64 = response.body.len() as u64;
            if declared != received {
                return Err(BridgeError::LengthMismatch { declared, received });
            }
        },
        None => {},
    }
    Ok(())
}

/// Judges a response.
pub fn check_response(response: &HelperResponse, path: &str) -> (result: Result<(), BridgeError>)
    ensures
        match refused_response(response@, path@, lossy_reads(response.body@)) {
            Some(text) => result matches Err(error) && error.text() == text,
            None => result is Ok,
        },
{
    judge_response(response, path, lossy_text(response.body.as_slice()))
}

// ---------------------------------------------------------------------------
// Ranges

/// The number that decimal digits spell.
pub open spec fn digits_number(digits: Seq<char>) -> Option<nat>
    decreases digits.len(),
{
    if digits.len() == 0 {
        Some(0)
    } else {
        match digits_number(digits.drop_last()) {
            Some(before) if '0' <= digits.last() && digits.last() <= '9' => Some(
                (10 * before + (digits.last() as int - '0' as int)) as nat,
            ),
            _ => None,
        }
    }
}

/// A number of 64 bits, as it is written: digits, with or without a plus sign.
pub open spec fn written_u64(text: Seq<char>) -> Option<u64> {
    let digits = if text.len() > 0 && text[0] == '+' {
        text.skip(1)
    } else {
        text
    };
    match digits_number(digits) {
        Some(number) if digits.len() > 0 && number <= u64::MAX => Some(number as u64),
        _ => None,
    }
}

proof fn lemma_digits_prefix(digits: Seq<char>, at: int)
    requires
        0 <= at <= digits.len(),
    ensures
        digits_number(digits.take(at)) is None ==> digits_number(digits) is None,
        digits_number(digits.take(at)) matches Some(part) ==> (digits_number(digits) matches Some(whole) ==> whole >= part),
    decreases digits.len(),
{
    if at == digits.len() {
        assert(digits.take(at) =~= digits);
    } else {
        assert(digits.drop_last().take(at) =~= digits.take(at));
        lemma_digits_prefix(digits.drop_last(), at);
    }
}

/// Reads a number of 64 bits.
pub fn parse_u64(text: &str) -> (number: Option<u64>)
    ensures
        number == written_u64(text@),
{
    let chars: Vec<char> = chars_of(text);
    let total: usize = chars.len();
    let start: usize = if total > 0 && chars[0] == '+' {
        1
    } else {
        0
    };
    let ghost digits = if start == 1 {
        text@.skip(1)
    } else {
        text@
    };
    if start == total {
        proof {
            assert(digits.len() == 0);
        }
        return None;
    }
    let mut number: u64 = 0;
    let mut at: usize = start;
    proof {
        assert(digits.take(0) =~= Seq::empty());
    }
    while at < total
        invariant
            start <= at <= total,
            start <= 1,
            total == chars@.len(),
            chars@ == text@,
            digits == (if start == 1 {
                text@.skip(1)
            } else {
                text@
            }),
            (start == 1) == (text@.len() > 0 && text@[0] == '+'),
            digits_number(digits.take(at - start)) == Some(number as nat),
        decreases total - at,
    {
        let c: char = chars[at];
        let ghost here = at - start;
        proof {
            assert(digits.take(here + 1).drop_last() =~= digits.take(here));
            assert(digits.take(here + 1).last() == c);
            lemma_digits_prefix(digits, here + 1);
        }
        if !('0' <= c && c <= '9') {
            return None;
        }
        let digit: u64 = (c as u32 - '0' as u32) as u64;
        let tens: Option<u64> = number.checked_mul(10);
        let next: Option<u64> = match tens {
            Some(tens) => tens.checked_add(digit),
            None => None,
        };
        match next {
            Some(next) => {
                number = next;
            },
            None => {
                return None;
            },
        }
        at = at + 1;
    }
    proof {
        assert(digits.take(digits.len() as int) =~= digits);
    }
    Some(number)
}

/// The last byte of a range; none where the range is empty.
pub fn range_end(offset: u64, length: u64) -> (end: Result<Option<u64>, BridgeError>)
    ensures
        length == 0 ==> end == Ok::<Option<u64>, BridgeError>(None),
        length > 0 && offset + length - 1 <= u64::MAX ==> end == Ok::<Option<u64>, BridgeError>(
            Some((offset + length - 1) as u64),
        ),
        length > 0 && offset + length - 1 > u64::MAX ==> end == Err::<Option<u64>, BridgeError>(
            BridgeError::RangeOverflow,
        ),
{
    if length == 0 {
        return Ok(None);
    }
    match offset.checked_add(length - 1) {
        Some(end) => Ok(Some(end)),
        None => Err(BridgeError::RangeOverflow),
    }
}

/// How a range is asked for.
pub fn range_header(offset: u64, end: u64) -> (header: String)
    ensures
        header@ == "bytes="@ + decimal(offset as nat) + "-"@ + decimal(end as nat),
{
    joined(
        joined(joined("bytes=", decimal_text(offset).as_str()).as_str(), "-").as_str(),
        decimal_text(end).as_str(),
    )
}

/// How the range of a response begins.
pub open spec fn range_prefix(offset: u64, end: u64) -> Seq<char> {
    "bytes "@ + decimal(offset as nat) + "-"@ + decimal(end as nat) + "/"@
}

/// Why the response to a request for a range is refused. `copied` is how many bytes
/// came, `detail` what a failed response says.
pub open spec fn refused_range(
    status: u32,
    content_range: Option<Seq<char>>,
    copied: u64,
    offset: u64,
    length: u64,
    path: Seq<char>,
    detail: Seq<char>,
) -> Option<Seq<char>> {
    let end = (offset + length - 1) as u64;
    let prefix = range_prefix(offset, end);
    if status != 206 {
        if is_success(status) {
            Some(BridgeError::RangeIgnored.text())
        } else {
            Some(failed_text(path, status, detail))
        }
    } else {
        match content_range {
            None => Some(BridgeError::NoContentRange.text()),
            Some(range) => if !prefix.is_prefix_of(range) {
                Some(BridgeError::WrongRange.text())
            } else {
                match written_u64(range.skip(prefix.len() as int)) {
                    None => Some(BridgeError::InvalidRangeLength.text()),
                    Some(total) => if total <= end {
                        Some(BridgeError::RangeExceedsLength.text())
                    } else if copied != length {
                        Some(
                            "RML bridge artifact range length mismatch: requested "@ + decimal(length as nat)
                                + ", received "@ + decimal(copied as nat),
                        )
                    } else {
                        None
                    },
                }
            },
        }
    }
}

/// Judges the response to a request for a range.
pub fn check_range_response(
    status: u32,
    content_range: &Option<String>,
    copied: u64,
    offset: u64,
    length: u64,
    path: &str,
    detail: String,
) -> (result: Result<(), BridgeError>)
    requires
        length > 0,
        offset + length - 1 <= u64::MAX,
    ensures
        match refused_range(status, optional_text(*content_range), copied, offset, length, path@, detail@) {
            Some(text) => result matches Err(error) && error.text() == text,
            None => result is Ok,
        },
{
    let end: u64 = offset + (length - 1);
    if status != 206 {
        if 200 <= status && status <= 299 {
            return Err(BridgeError::RangeIgnored);
        }
        return Err(BridgeError::Status { path: path.to_owned(), status, detail });
    }
    let range: &String = match content_range {
        Some(range) => range,
        None => {
            return Err(BridgeError::NoContentRange);
        },
    };
    let prefix: String = joined(
        joined(
            joined(joined("bytes ", decimal_text(offset).as_str()).as_str(), "-").as_str(),
            decimal_text(end).as_str(),
        ).as_str(),
        "/",
    );
    if !starts_with(range.as_str(), prefix.as_str()) {
        return Err(BridgeError::WrongRange);
    }
    let chars: Vec<char> = chars_of(range.as_str());
    let head: Vec<char> = chars_of(prefix.as_str());
    let rest: String = text_of(&chars, head.len(), chars.len());
    proof {
        assert(rest@ =~= range@.skip(prefix@.len() as int));
    }
    let total: u64 = match parse_u64(rest.as_str()) {
        Some(total) => total,
        None => {
            return Err(BridgeError::InvalidRangeLength);
        },
    };
    if total <= end {
        return Err(BridgeError::RangeExceedsLength);
    }
    if copied != length {
        return Err(BridgeError::RangeLengthMismatch { requested: length, received: copied });
    }
    Ok(())
}

} // verus!
