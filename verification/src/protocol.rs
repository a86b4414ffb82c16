//! The request header format spoken between nodes.
//!
//! A request is a header, then the empty line `"\r\n\r\n"`, then a body. The
//! header is a sequence of `key:value` lines separated by `"\r\n"`; the only
//! option is `request_type`, whose only accepted value is `join`.

use vstd::prelude::*;
use crate::text::{
    chars_eq, chars_of, contains, find, find_chars, lemma_find_append, lemma_find_bounds,
    lemma_find_from_is, lemma_find_from_none, slice_chars, split_all, split_once,
};

verus! {

/// Why a request could not be parsed.
#[derive(Debug, PartialEq, Eq, Structural, Clone, Copy)]
pub enum ProtocolError {
    /// The request holds no `"\r\n\r\n"` that ends the header.
    MalformedPayload,
    /// A header line holds no `:`.
    MalformedHeader,
    /// A header line names an option other than `request_type`.
    InvalidHeaderOption,
    /// The `request_type` option has a value other than `join`.
    InvalidOptionValue,
}

/// The kind of a request.
#[derive(Debug, PartialEq, Eq, Structural, Clone, Copy)]
pub enum RequestType {
    Heartbeat,
    Join,
    Unspecified,
}

/// A parsed request: its kind and its body.
#[derive(Debug)]
pub struct Protocol {
    request_type: RequestType,
    body: String,
}

impl View for Protocol {
    type V = (RequestType, Seq<char>);

    closed spec fn view(&self) -> (RequestType, Seq<char>) {
        (self.request_type, self.body@)
    }
}

impl Protocol {
    /// The kind of the request.
    pub fn request_type(&self) -> (r: RequestType)
        ensures
            r == self@.0,
    {
        self.request_type
    }

    /// The body of the request, everything after the header.
    pub fn body(&self) -> (r: &str)
        ensures
            r@ == self@.1,
    {
        self.body.as_str()
    }
}

/// The line that ends the header: `"\r\n\r\n"`.
pub open spec fn header_end() -> Seq<char> {
    seq!['\r', '\n', '\r', '\n']
}

/// The separator of header lines: `"\r\n"`.
pub open spec fn line_end() -> Seq<char> {
    seq!['\r', '\n']
}

/// The separator of an option from its value: `":"`.
pub open spec fn option_separator() -> Seq<char> {
    seq![':']
}

/// The one option name: `"request_type"`.
pub open spec fn request_type_option() -> Seq<char> {
    seq!['r', 'e', 'q', 'u', 'e', 's', 't', '_', 't', 'y', 'p', 'e']
}

/// The one accepted value of `request_type`: `"join"`.
pub open spec fn join_value() -> Seq<char> {
    seq!['j', 'o', 'i', 'n']
}

/// What a single header line gives: the request type it sets, or the error.
pub open spec fn header_line_result(line: Seq<char>) -> Result<RequestType, ProtocolError> {
    match split_once(line, option_separator()) {
        None => Err(ProtocolError::MalformedHeader),
        Some((key, value)) => if key == request_type_option() {
            if value == join_value() {
                Ok(RequestType::Join)
            } else {
                Err(ProtocolError::InvalidOptionValue)
            }
        } else {
            Err(ProtocolError::InvalidHeaderOption)
        },
    }
}

/// The header lines taken in order, starting from request type `rt`: the first
/// error met, or the request type after the last line.
pub open spec fn header_lines_result(lines: Seq<Seq<char>>, rt: RequestType) -> Result<
    RequestType,
    ProtocolError,
>
    decreases lines.len(),
{
    if lines.len() == 0 {
        Ok(rt)
    } else {
        match header_line_result(lines[0]) {
            Err(e) => Err(e),
            Ok(t) => header_lines_result(lines.drop_first(), t),
        }
    }
}

/// What parsing `data` gives: the request type and the body, or the error.
pub open spec fn parse_request(data: Seq<char>) -> Result<(RequestType, Seq<char>), ProtocolError> {
    match split_once(data, header_end()) {
        None => Err(ProtocolError::MalformedPayload),
        Some((header, body)) => match header_lines_result(
            split_all(header, line_end()),
            RequestType::Unspecified,
        ) {
            Ok(t) => Ok((t, body)),
            Err(e) => Err(e),
        },
    }
}

/// The outcome of the parser, by views.
pub open spec fn parsed_view(r: Result<Protocol, ProtocolError>) -> Result<
    (RequestType, Seq<char>),
    ProtocolError,
> {
    match r {
        Ok(p) => Ok(p@),
        Err(e) => Err(e),
    }
}

fn header_line(line: &Vec<char>) -> (r: Result<RequestType, ProtocolError>)
    ensures
        r == header_line_result(line@),
{
    let colon = chars_of(":");
    let option = chars_of("request_type");
    let join = chars_of("join");
    proof {
        reveal_strlit(":");
        reveal_strlit("request_type");
        reveal_strlit("join");
        assert(colon@ =~= option_separator());
        assert(option@ =~= request_type_option());
        assert(join@ =~= join_value());
        lemma_find_bounds(line@, colon@);
    }
    match find_chars(line, &colon) {
        None => Err(ProtocolError::MalformedHeader),
        Some(i) => {
            assert(i + 1 <= line.len());
            let key = slice_chars(line, 0, i);
            let value = slice_chars(line, i + 1, line.len());
            assert(key@ =~= line@.take(i as int));
            assert(value@ =~= line@.skip(i + 1));
            if chars_eq(&key, &option) {
                if chars_eq(&value, &join) {
                    Ok(RequestType::Join)
                } else {
                    Err(ProtocolError::InvalidOptionValue)
                }
            } else {
                Err(ProtocolError::InvalidHeaderOption)
            }
        },
    }
}

impl Protocol {
    /// Parses a request: the header up to the first `"\r\n\r\n"`, whose lines
    /// must each be `request_type:join`, and the body after it.
    pub fn header_parser(data: &str) -> (r: Result<Self, ProtocolError>)
        ensures
            parsed_view(r) == parse_request(data@),
    {
        let d = chars_of(data);
        let end = chars_of("\r\n\r\n");
        let crlf = chars_of("\r\n");
        proof {
            reveal_strlit("\r\n\r\n");
            reveal_strlit("\r\n");
            assert(end@ =~= header_end());
            assert(crlf@ =~= line_end());
            lemma_find_bounds(d@, end@);
        }
        let split = find_chars(&d, &end);
        match split {
            None => Err(ProtocolError::MalformedPayload),
            Some(i) => {
                assert(i + 4 <= d.len());
                let body_str = data.substring_char(i + 4, d.len());
                let body = String::from_str(body_str);
                assert(body@ =~= d@.skip(i + 4));
                let mut rest = slice_chars(&d, 0, i);
                let ghost header = rest@;
                assert(header =~= d@.take(i as int));
                let mut rt = RequestType::Unspecified;
                loop
                    invariant
                        crlf@ == line_end(),
                        header_lines_result(split_all(header, line_end()), RequestType::Unspecified)
                            == header_lines_result(split_all(rest@, line_end()), rt),
                        parse_request(data@) == match header_lines_result(
                            split_all(header, line_end()),
                            RequestType::Unspecified,
                        ) {
                            Ok(t) => Ok((t, body@)),
                            Err(e) => Err(e),
                        },
                    decreases rest.len(),
                {
                    proof {
                        lemma_find_bounds(rest@, crlf@);
                    }
                    match find_chars(&rest, &crlf) {
                        None => {
                            let last = header_line(&rest);
                            assert(split_all(rest@, line_end()) =~= seq![rest@]);
                            assert(seq![rest@].drop_first() =~= Seq::<Seq<char>>::empty());
                            match last {
                                Err(e) => {
                                    return Err(e);
                                },
                                Ok(t) => {
                                    assert(header_lines_result(seq![rest@], rt) == header_lines_result(
                                        Seq::<Seq<char>>::empty(),
                                        t,
                                    ));
                                    return Ok(Protocol { request_type: t, body });
                                },
                            }
                        },
                        Some(k) => {
                            let line = slice_chars(&rest, 0, k);
                            let next = slice_chars(&rest, k + 2, rest.len());
                            assert(line@ =~= rest@.take(k as int));
                            assert(next@ =~= rest@.skip(k + 2));
                            assert(split_all(rest@, line_end()) =~= seq![line@] + split_all(
                                next@,
                                line_end(),
                            ));
                            assert((seq![line@] + split_all(next@, line_end())).drop_first()
                                =~= split_all(next@, line_end()));
                            match header_line(&line) {
                                Err(e) => {
                                    return Err(e);
                                },
                                Ok(t) => {
                                    rt = t;
                                },
                            }
                            rest = next;
                        },
                    }
                }
            },
        }
    }
}

// ---------------------------------------------------------------------------
// Laws of the request format
// ---------------------------------------------------------------------------

proof fn lemma_split_all_nonempty(s: Seq<char>, pat: Seq<char>)
    ensures
        split_all(s, pat).len() >= 1,
    decreases s.len(),
{
    if pat.len() > 0 {
        match find(s, pat) {
            Some(i) => if 0 <= i && i + pat.len() <= s.len() {
                lemma_split_all_nonempty(s.skip(i + pat.len()), pat);
            },
            None => {},
        }
    }
}

proof fn lemma_lines_result(lines: Seq<Seq<char>>, rt: RequestType)
    ensures
        header_lines_result(lines, rt) != Err::<RequestType, ProtocolError>(
            ProtocolError::MalformedPayload,
        ),
        lines.len() > 0 ==> (header_lines_result(lines, rt) matches Ok(t) ==> t
            == RequestType::Join),
    decreases lines.len(),
{
    if lines.len() > 0 {
        lemma_lines_result(lines.drop_first(), RequestType::Join);
    }
}

/// Every request that parses is a join request: no header makes the parser
/// return another request type.
pub proof fn lemma_parsed_request_is_join(data: Seq<char>)
    ensures
        parse_request(data) matches Ok((t, _)) ==> t == RequestType::Join,
{
    match split_once(data, header_end()) {
        None => {},
        Some((header, body)) => {
            lemma_split_all_nonempty(header, line_end());
            lemma_lines_result(split_all(header, line_end()), RequestType::Unspecified);
        },
    }
}

/// A request is refused as `MalformedPayload` exactly when it holds no
/// `"\r\n\r\n"`; every other refusal names a fault of the header.
pub proof fn lemma_malformed_payload_iff_no_header_end(data: Seq<char>)
    ensures
        (parse_request(data) == Err::<(RequestType, Seq<char>), ProtocolError>(
            ProtocolError::MalformedPayload,
        )) <==> !contains(data, header_end()),
{
    match split_once(data, header_end()) {
        None => {},
        Some((header, body)) => {
            lemma_lines_result(split_all(header, line_end()), RequestType::Unspecified);
        },
    }
}

/// Text appended to a request that holds a complete header changes nothing
/// but the body, which grows by that text.
pub proof fn lemma_append_extends_body(data: Seq<char>, extra: Seq<char>)
    requires
        contains(data, header_end()),
    ensures
        match parse_request(data) {
            Ok((t, body)) => parse_request(data + extra) == Ok::<
                (RequestType, Seq<char>),
                ProtocolError,
            >((t, body + extra)),
            Err(e) => parse_request(data + extra) == Err::<(RequestType, Seq<char>), ProtocolError>(
                e,
            ),
        },
{
    lemma_find_append(data, header_end(), extra);
    lemma_find_bounds(data, header_end());
    let i = find(data, header_end())->0;
    assert((data + extra).take(i) =~= data.take(i));
    assert((data + extra).skip(i + 4) =~= data.skip(i + 4) + extra);
}

/// The request that a joining node sends, with any body.
pub open spec fn join_request(body: Seq<char>) -> Seq<char> {
    request_type_option() + option_separator() + join_value() + header_end() + body
}

/// A join header followed by any body parses as a join request carrying
/// exactly that body.
pub proof fn lemma_join_request_parses(body: Seq<char>)
    ensures
        parse_request(join_request(body)) == Ok::<(RequestType, Seq<char>), ProtocolError>(
            (RequestType::Join, body),
        ),
{
    let data = join_request(body);
    let header = request_type_option() + option_separator() + join_value();
    assert(header.len() == 17);
    assert(data =~= header + header_end() + body);
    assert(data.subrange(17, 21) =~= header_end());
    assert forall|j: int| 0 <= j < 17 implies #[trigger] data.subrange(j, j + 4) != header_end() by {
        assert(data.subrange(j, j + 4)[0] == header[j]);
        assert(header[j] != '\r');
    }
    lemma_find_from_is(data, header_end(), 0, 17);
    assert(data.take(17) =~= header);
    assert(data.skip(21) =~= body);
    assert forall|j: int| 0 <= j && j + 2 <= header.len() implies #[trigger] header.subrange(j, j + 2)
        != line_end() by {
        assert(header.subrange(j, j + 2)[0] == header[j]);
    }
    lemma_find_from_none(header, line_end(), 0);
    assert(split_all(header, line_end()) =~= seq![header]);
    assert(header.subrange(12, 13) =~= option_separator());
    assert forall|j: int| 0 <= j < 12 implies #[trigger] header.subrange(j, j + 1)
        != option_separator() by {
        assert(header.subrange(j, j + 1)[0] == header[j]);
    }
    lemma_find_from_is(header, option_separator(), 0, 12);
    assert(header.take(12) =~= request_type_option());
    assert(header.skip(13) =~= join_value());
    assert(split_once(header, option_separator()) == Some((header.take(12), header.skip(13))));
    assert(header_line_result(header) == Ok::<RequestType, ProtocolError>(RequestType::Join));
    assert(seq![header].drop_first() =~= Seq::<Seq<char>>::empty());
    assert(header_lines_result(seq![header], RequestType::Unspecified) == header_lines_result(
        Seq::<Seq<char>>::empty(),
        RequestType::Join,
    ));
    assert(split_once(data, header_end()) == Some((data.take(17), data.skip(21))));
}

} // verus!
