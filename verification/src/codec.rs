//! Protocol codec: the request and response types of the wire protocol,
//! an encoder that serializes a request to a single JSON line, and a
//! strict structural decoder that reads a line back into a response (or
//! a request). A line that fails the structural parse is no error: the
//! pump reclassifies it as diagnostic output.

use vstd::prelude::*;
use vstd::string::StringSliceAdditionalSpecFns;
use vstd::utf8::{decode_utf8, encode_utf8, valid_utf8};

use crate::json::{
    esc, escaped, i64_span, is_digit, number, spec_i64_span, spec_number, spec_string_body,
    spec_value, spec_ws, skip_value, string_body, ws,
};
use crate::text::{ascii_bytes, bytes_is, bytes_range, bytes_to_string, push_ascii};

verus! {

/// An outbound request: one logical command for the child process.
/// Optional fields that are absent are omitted from the wire form.
#[derive(Clone, Debug, PartialEq)]
pub struct AgentRequest {
    pub id: String,
    pub kind: String,
    pub message: Option<String>,
    pub images: Option<String>,
    pub conversation_id: Option<String>,
}

/// The mathematical shape of a request.
pub struct ReqV {
    pub id: Seq<char>,
    pub kind: Seq<char>,
    pub message: Option<Seq<char>>,
    pub images: Option<Seq<char>>,
    pub conversation_id: Option<Seq<char>>,
}

impl View for AgentRequest {
    type V = ReqV;

    open spec fn view(&self) -> ReqV {
        ReqV {
            id: self.id@,
            kind: self.kind@,
            message: match self.message {
                Some(m) => Some(m@),
                None => None,
            },
            images: match self.images {
                Some(m) => Some(m@),
                None => None,
            },
            conversation_id: match self.conversation_id {
                Some(m) => Some(m@),
                None => None,
            },
        }
    }
}

/// An inbound response, the discriminated union of the wire protocol.
/// The `data` payloads carry the raw JSON text of the child's value,
/// passed through without interpretation.
#[derive(Clone, Debug, PartialEq)]
pub enum AgentResponse {
    Ready { timestamp: i64 },
    Token { id: String, token: String, timestamp: i64 },
    ToolUse { id: String, data: String, timestamp: i64 },
    ToolResult { id: String, data: String, timestamp: i64 },
    Done { id: String, data: Option<String>, timestamp: i64 },
    Error { id: String, error: String, timestamp: i64 },
}

/// The mathematical shape of a response.
pub enum RespV {
    Ready { timestamp: int },
    Token { id: Seq<char>, token: Seq<char>, timestamp: int },
    ToolUse { id: Seq<char>, data: Seq<char>, timestamp: int },
    ToolResult { id: Seq<char>, data: Seq<char>, timestamp: int },
    Done { id: Seq<char>, data: Option<Seq<char>>, timestamp: int },
    Error { id: Seq<char>, error: Seq<char>, timestamp: int },
}

impl View for AgentResponse {
    type V = RespV;

    open spec fn view(&self) -> RespV {
        match self {
            AgentResponse::Ready { timestamp } => RespV::Ready { timestamp: *timestamp as int },
            AgentResponse::Token { id, token, timestamp } => RespV::Token {
                id: id@,
                token: token@,
                timestamp: *timestamp as int,
            },
            AgentResponse::ToolUse { id, data, timestamp } => RespV::ToolUse {
                id: id@,
                data: data@,
                timestamp: *timestamp as int,
            },
            AgentResponse::ToolResult { id, data, timestamp } => RespV::ToolResult {
                id: id@,
                data: data@,
                timestamp: *timestamp as int,
            },
            AgentResponse::Done { id, data, timestamp } => RespV::Done {
                id: id@,
                data: match data {
                    Some(d) => Some(d@),
                    None => None,
                },
                timestamp: *timestamp as int,
            },
            AgentResponse::Error { id, error, timestamp } => RespV::Error {
                id: id@,
                error: error@,
                timestamp: *timestamp as int,
            },
        }
    }
}

/// A member value, as far as the decoder distinguishes: a string with
/// its unescaped content, an integer in range, or anything else.
pub enum MVal {
    Str(Vec<u8>),
    Int(i64),
    Other,
}

pub enum MValV {
    Str(Seq<u8>),
    Int(int),
    Other,
}

impl View for MVal {
    type V = MValV;

    open spec fn view(&self) -> MValV {
        match self {
            MVal::Str(c) => MValV::Str(c@),
            MVal::Int(v) => MValV::Int(*v as int),
            MVal::Other => MValV::Other,
        }
    }
}

/// One object member: its key, its classified value, and the raw bytes
/// of the value as written on the wire.
pub struct Member {
    pub key: Vec<u8>,
    pub val: MVal,
    pub raw: Vec<u8>,
}

pub struct MemberV {
    pub key: Seq<u8>,
    pub val: MValV,
    pub raw: Seq<u8>,
}

impl View for Member {
    type V = MemberV;

    open spec fn view(&self) -> MemberV {
        MemberV { key: self.key@, val: self.val@, raw: self.raw@ }
    }
}

/// Classifies the member value starting at `i`: a string yields its
/// unescaped content, a number its exact 64-bit value when it is an
/// in-range integer, and anything else (including other numbers) is
/// opaque.
pub open spec fn spec_mval(s: Seq<u8>, i: int, f: nat) -> Option<(MValV, int)> {
    if !(0 <= i < s.len()) {
        None
    } else if s[i] == 34 {
        match spec_string_body(s, i + 1) {
            Some((c, j)) => Some((MValV::Str(c), j)),
            None => None,
        }
    } else if s[i] == 45 || is_digit(s[i]) {
        match spec_number(s, i) {
            None => None,
            Some(j) => match spec_i64_span(s, i, j) {
                Some(v) => Some((MValV::Int(v), j)),
                None => Some((MValV::Other, j)),
            },
        }
    } else {
        match spec_value(s, i, f) {
            Some(j) => Some((MValV::Other, j)),
            None => None,
        }
    }
}

fn member_val(s: &[u8], i: usize, f: usize) -> (r: Option<(MVal, usize)>)
    requires
        i <= s@.len(),
    ensures
        match (r, spec_mval(s@, i as int, f as nat)) {
            (Some(p), Some(q)) => p.0@ == q.0 && p.1 == q.1 && i < p.1 <= s@.len(),
            (None, None) => true,
            _ => false,
        },
{
    let n = s.len();
    if i >= n {
        return None;
    }
    let c = s[i];
    if c == 34 {
        proof {
            crate::json::lemma_string_body_bounds(s@, i + 1 as int);
        }
        match string_body(s, i + 1) {
            Some(p) => Some((MVal::Str(p.0), p.1)),
            None => None,
        }
    } else if c == 45 || (48 <= c && c <= 57) {
        match number(s, i) {
            None => None,
            Some(j) => match i64_span(s, i, j) {
                Some(v) => Some((MVal::Int(v), j)),
                None => Some((MVal::Other, j)),
            },
        }
    } else {
        match skip_value(s, i, f) {
            Some(j) => Some((MVal::Other, j)),
            None => None,
        }
    }
}

/// Parses the members of an object, starting at a key position (or the
/// closing brace), capturing each member in order; yields the members
/// and the position just past the closing brace.
pub open spec fn spec_members_cap(s: Seq<u8>, i: int, f: nat, acc: Seq<MemberV>) -> Option<
    (Seq<MemberV>, int),
>
    decreases f,
{
    if f == 0 {
        None
    } else if !(0 <= i < s.len() && s[i] == 34) {
        None
    } else {
        match spec_string_body(s, i + 1) {
            None => None,
            Some((k, j1)) => {
                let j2 = spec_ws(s, j1);
                if !(j2 < s.len() && s[j2] == 58) {
                    None
                } else {
                    let v0 = spec_ws(s, j2 + 1);
                    match spec_mval(s, v0, (f - 1) as nat) {
                        None => None,
                        Some((mv, j3)) => {
                            let acc2 = acc.push(
                                MemberV { key: k, val: mv, raw: s.subrange(v0, j3) },
                            );
                            let j4 = spec_ws(s, j3);
                            if !(j4 < s.len()) {
                                None
                            } else if s[j4] == 44 {
                                spec_members_cap(s, spec_ws(s, j4 + 1), (f - 1) as nat, acc2)
                            } else if s[j4] == 125 {
                                Some((acc2, j4 + 1))
                            } else {
                                None
                            }
                        },
                    }
                }
            },
        }
    }
}

/// The members of an object body: either immediately closed, or a
/// member chain.
pub open spec fn spec_obj_cap(s: Seq<u8>, i: int, f: nat, acc: Seq<MemberV>) -> Option<
    (Seq<MemberV>, int),
> {
    if 0 <= i < s.len() && s[i] == 125 {
        Some((acc, i + 1))
    } else {
        spec_members_cap(s, i, f, acc)
    }
}

fn members_cap(s: &[u8], i: usize, f: usize, acc: Vec<Member>) -> (r: Option<(Vec<Member>, usize)>)
    requires
        i <= s@.len(),
    ensures
        match (r, spec_members_cap(s@, i as int, f as nat, acc@.map_values(|m: Member| m@))) {
            (Some(p), Some(q)) => p.0@.map_values(|m: Member| m@) == q.0 && p.1 == q.1 && p.1
                <= s@.len(),
            (None, None) => true,
            _ => false,
        },
    decreases f,
{
    if f == 0 {
        return None;
    }
    let n = s.len();
    if i >= n {
        return None;
    }
    if s[i] != 34 {
        return None;
    }
    let (key, j1) = match string_body(s, i + 1) {
        Some(p) => p,
        None => {
            return None;
        },
    };
    proof {
        crate::json::lemma_string_body_bounds(s@, i + 1 as int);
    }
    let j2 = ws(s, j1);
    if !(j2 < n) {
        return None;
    }
    if s[j2] != 58 {
        return None;
    }
    let v0 = ws(s, j2 + 1);
    let (mv, j3) = match member_val(s, v0, f - 1) {
        Some(p) => p,
        None => {
            return None;
        },
    };
    let raw = bytes_range(s, v0, j3);
    let mut acc2 = acc;
    let ghost accview = acc2@.map_values(|m: Member| m@);
    let m = Member { key, val: mv, raw };
    let ghost mview = m@;
    acc2.push(m);
    proof {
        assert(acc2@.map_values(|m: Member| m@) =~= accview.push(mview));
    }
    let j4 = ws(s, j3);
    if !(j4 < n) {
        return None;
    }
    if s[j4] == 44 {
        let nx = ws(s, j4 + 1);
        members_cap(s, nx, f - 1, acc2)
    } else if s[j4] == 125 {
        Some((acc2, j4 + 1))
    } else {
        None
    }
}

/// The member list of a byte sequence that is exactly one JSON object
/// (with optional surrounding whitespace): the decoder's view of a line.
pub open spec fn spec_members_of(b: Seq<u8>) -> Option<Seq<MemberV>> {
    let i0 = spec_ws(b, 0);
    if !(0 <= i0 < b.len() && b[i0] == 123) {
        None
    } else {
        let i1 = spec_ws(b, i0 + 1);
        match spec_obj_cap(b, i1, b.len() as nat, Seq::empty()) {
            None => None,
            Some((ms, j)) => {
                if spec_ws(b, j) == b.len() {
                    Some(ms)
                } else {
                    None
                }
            },
        }
    }
}

/// Parses a whole line as one JSON object, capturing its members.
pub fn parse_members(s: &[u8]) -> (r: Option<Vec<Member>>)
    ensures
        match (r, spec_members_of(s@)) {
            (Some(v), Some(ms)) => v@.map_values(|m: Member| m@) == ms,
            (None, None) => true,
            _ => false,
        },
{
    let i0 = ws(s, 0);
    if !(i0 < s.len()) {
        return None;
    }
    if s[i0] != 123 {
        return None;
    }
    let i1 = ws(s, i0 + 1);
    let f = s.len();
    let empty_acc: Vec<Member> = Vec::new();
    proof {
        assert(empty_acc@.map_values(|m: Member| m@) =~= Seq::<MemberV>::empty());
    }
    let (ms, j) = if i1 < s.len() && s[i1] == 125 {
        (empty_acc, i1 + 1)
    } else {
        match members_cap(s, i1, f, empty_acc) {
            Some(p) => p,
            None => {
                return None;
            },
        }
    };
    let j2 = ws(s, j);
    if j2 == s.len() {
        Some(ms)
    } else {
        None
    }
}

/// The first member with the given key, if any: on a duplicate key the
/// first occurrence wins.
pub open spec fn lookup(ms: Seq<MemberV>, key: Seq<u8>) -> Option<MemberV>
    decreases ms.len(),
{
    if ms.len() == 0 {
        None
    } else if ms[0].key == key {
        Some(ms[0])
    } else {
        lookup(ms.drop_first(), key)
    }
}

/// Finds the first member with the given ASCII key.
fn find_member<'a>(ms: &'a Vec<Member>, key: &str) -> (r: Option<&'a Member>)
    requires
        vstd::string::is_ascii(key),
    ensures
        match (r, lookup(ms@.map_values(|m: Member| m@), ascii_bytes(key@))) {
            (Some(m), Some(mv)) => m@ == mv,
            (None, None) => true,
            _ => false,
        },
{
    let ghost msv = ms@.map_values(|m: Member| m@);
    let n = ms.len();
    let mut i: usize = 0;
    proof {
        assert(msv.skip(0) =~= msv);
    }
    loop
        invariant
            i <= n == ms@.len(),
            msv == ms@.map_values(|m: Member| m@),
            vstd::string::is_ascii(key),
            lookup(msv, ascii_bytes(key@)) == lookup(
                msv.skip(i as int),
                ascii_bytes(key@),
            ),
        ensures
            match lookup(msv, ascii_bytes(key@)) {
                Some(mv) => i < n && ms@[i as int]@ == mv,
                None => i == n,
            },
        decreases n - i,
    {
        if i >= n {
            proof {
                assert(msv.skip(i as int) =~= Seq::<MemberV>::empty());
            }
            break ;
        }
        let hit = bytes_is(ms[i].key.as_slice(), key);
        proof {
            assert(msv.skip(i as int)[0] == msv[i as int]);
            assert(msv.skip(i as int).drop_first() =~= msv.skip(i + 1));
        }
        if hit {
            break ;
        }
        i += 1;
    }
    if i < n {
        Some(&ms[i])
    } else {
        None
    }
}

/// A string-valued field, decoded to text; nothing when the key is
/// absent, not a string, or not valid UTF-8.
pub open spec fn str_field(ms: Seq<MemberV>, key: Seq<u8>) -> Option<Seq<char>> {
    match lookup(ms, key) {
        Some(m) => match m.val {
            MValV::Str(c) => if valid_utf8(c) {
                Some(decode_utf8(c))
            } else {
                None
            },
            _ => None,
        },
        None => None,
    }
}

/// An integer-valued field; nothing when absent or not an integer in
/// 64-bit range.
pub open spec fn int_field(ms: Seq<MemberV>, key: Seq<u8>) -> Option<int> {
    match lookup(ms, key) {
        Some(m) => match m.val {
            MValV::Int(v) => Some(v),
            _ => None,
        },
        None => None,
    }
}

/// The raw wire text of a field's value; nothing when absent or when
/// the raw bytes are not valid UTF-8.
pub open spec fn raw_field(ms: Seq<MemberV>, key: Seq<u8>) -> Option<Seq<char>> {
    match lookup(ms, key) {
        Some(m) => if valid_utf8(m.raw) {
            Some(decode_utf8(m.raw))
        } else {
            None
        },
        None => None,
    }
}

/// An optional string field: absent is allowed, but a present value
/// must be a valid string.
pub open spec fn opt_str_field(ms: Seq<MemberV>, key: Seq<u8>) -> Option<Option<Seq<char>>> {
    match lookup(ms, key) {
        None => Some(None),
        Some(m) => match m.val {
            MValV::Str(c) => if valid_utf8(c) {
                Some(Some(decode_utf8(c)))
            } else {
                None
            },
            _ => None,
        },
    }
}

fn get_str(ms: &Vec<Member>, key: &str) -> (r: Option<String>)
    requires
        vstd::string::is_ascii(key),
    ensures
        match (r, str_field(ms@.map_values(|m: Member| m@), ascii_bytes(key@))) {
            (Some(a), Some(b)) => a@ == b,
            (None, None) => true,
            _ => false,
        },
{
    match find_member(ms, key) {
        Some(m) => match &m.val {
            MVal::Str(c) => {
                let cc = c.clone();
                proof {
                    assert(cc@ =~= c@);
                }
                bytes_to_string(cc)
            },
            _ => None,
        },
        None => None,
    }
}

fn get_int(ms: &Vec<Member>, key: &str) -> (r: Option<i64>)
    requires
        vstd::string::is_ascii(key),
    ensures
        match (r, int_field(ms@.map_values(|m: Member| m@), ascii_bytes(key@))) {
            (Some(a), Some(b)) => a as int == b,
            (None, None) => true,
            _ => false,
        },
{
    match find_member(ms, key) {
        Some(m) => match &m.val {
            MVal::Int(v) => Some(*v),
            _ => None,
        },
        None => None,
    }
}

fn get_raw(ms: &Vec<Member>, key: &str) -> (r: Option<String>)
    requires
        vstd::string::is_ascii(key),
    ensures
        match (r, raw_field(ms@.map_values(|m: Member| m@), ascii_bytes(key@))) {
            (Some(a), Some(b)) => a@ == b,
            (None, None) => true,
            _ => false,
        },
{
    match find_member(ms, key) {
        Some(m) => {
            let rc = m.raw.clone();
            proof {
                assert(rc@ =~= m.raw@);
            }
            bytes_to_string(rc)
        },
        None => None,
    }
}

fn has_member(ms: &Vec<Member>, key: &str) -> (r: bool)
    requires
        vstd::string::is_ascii(key),
    ensures
        r == (lookup(ms@.map_values(|m: Member| m@), ascii_bytes(key@)) is Some),
{
    match find_member(ms, key) {
        Some(m) => true,
        None => false,
    }
}

/// The response a member list stands for, if any: dispatch on the
/// `type` tag, then the variant's required fields, each of the right
/// kind; fields a variant does not use are ignored.
pub open spec fn resp_of_members(ms: Seq<MemberV>) -> Option<RespV> {
    match lookup(ms, ascii_bytes("type"@)) {
        None => None,
        Some(tm) => match tm.val {
            MValV::Str(tag) => {
                if tag == ascii_bytes("ready"@) {
                    match int_field(ms, ascii_bytes("timestamp"@)) {
                        Some(t) => Some(RespV::Ready { timestamp: t }),
                        None => None,
                    }
                } else if tag == ascii_bytes("token"@) {
                    match (
                        str_field(ms, ascii_bytes("id"@)),
                        str_field(ms, ascii_bytes("token"@)),
                        int_field(ms, ascii_bytes("timestamp"@)),
                    ) {
                        (Some(id), Some(tok), Some(t)) => Some(
                            RespV::Token { id, token: tok, timestamp: t },
                        ),
                        _ => None,
                    }
                } else if tag == ascii_bytes("tool_use"@) {
                    match (
                        str_field(ms, ascii_bytes("id"@)),
                        raw_field(ms, ascii_bytes("data"@)),
                        int_field(ms, ascii_bytes("timestamp"@)),
                    ) {
                        (Some(id), Some(d), Some(t)) => Some(
                            RespV::ToolUse { id, data: d, timestamp: t },
                        ),
                        _ => None,
                    }
                } else if tag == ascii_bytes("tool_result"@) {
                    match (
                        str_field(ms, ascii_bytes("id"@)),
                        raw_field(ms, ascii_bytes("data"@)),
                        int_field(ms, ascii_bytes("timestamp"@)),
                    ) {
                        (Some(id), Some(d), Some(t)) => Some(
                            RespV::ToolResult { id, data: d, timestamp: t },
                        ),
                        _ => None,
                    }
                } else if tag == ascii_bytes("done"@) {
                    match (
                        str_field(ms, ascii_bytes("id"@)),
                        int_field(ms, ascii_bytes("timestamp"@)),
                    ) {
                        (Some(id), Some(t)) => {
                            if lookup(ms, ascii_bytes("data"@)) is Some {
                                match raw_field(ms, ascii_bytes("data"@)) {
                                    Some(d) => Some(
                                        RespV::Done { id, data: Some(d), timestamp: t },
                                    ),
                                    None => None,
                                }
                            } else {
                                Some(RespV::Done { id, data: None, timestamp: t })
                            }
                        },
                        _ => None,
                    }
                } else if tag == ascii_bytes("error"@) {
                    match (
                        str_field(ms, ascii_bytes("id"@)),
                        str_field(ms, ascii_bytes("error"@)),
                        int_field(ms, ascii_bytes("timestamp"@)),
                    ) {
                        (Some(id), Some(e), Some(t)) => Some(
                            RespV::Error { id, error: e, timestamp: t },
                        ),
                        _ => None,
                    }
                } else {
                    None
                }
            },
            _ => None,
        },
    }
}

/// What one wire line decodes to, if it is a structured response.
pub open spec fn spec_decode_response(b: Seq<u8>) -> Option<RespV> {
    match spec_members_of(b) {
        Some(ms) => resp_of_members(ms),
        None => None,
    }
}

/// Decodes one line as a response; returns a value exactly when the
/// line matches the structural shape of the protocol, and then exactly
/// the response the specification gives.
pub fn decode_response_bytes(b: &[u8]) -> (r: Option<AgentResponse>)
    ensures
        match (r, spec_decode_response(b@)) {
            (Some(a), Some(v)) => a@ == v,
            (None, None) => true,
            _ => false,
        },
{
    proof {
        reveal_strlit("type");
        reveal_strlit("ready");
        reveal_strlit("token");
        reveal_strlit("tool_use");
        reveal_strlit("tool_result");
        reveal_strlit("done");
        reveal_strlit("error");
        reveal_strlit("id");
        reveal_strlit("data");
        reveal_strlit("timestamp");
    }
    let ms = match parse_members(b) {
        Some(ms) => ms,
        None => {
            return None;
        },
    };
    let tag: &Vec<u8> = match find_member(&ms, "type") {
        Some(m) => match &m.val {
            MVal::Str(c) => c,
            _ => {
                return None;
            },
        },
        None => {
            return None;
        },
    };
    if bytes_is(tag.as_slice(), "ready") {
        match get_int(&ms, "timestamp") {
            Some(t) => Some(AgentResponse::Ready { timestamp: t }),
            None => None,
        }
    } else if bytes_is(tag.as_slice(), "token") {
        match (get_str(&ms, "id"), get_str(&ms, "token"), get_int(&ms, "timestamp")) {
            (Some(id), Some(tok), Some(t)) => Some(
                AgentResponse::Token { id, token: tok, timestamp: t },
            ),
            _ => None,
        }
    } else if bytes_is(tag.as_slice(), "tool_use") {
        match (get_str(&ms, "id"), get_raw(&ms, "data"), get_int(&ms, "timestamp")) {
            (Some(id), Some(d), Some(t)) => Some(
                AgentResponse::ToolUse { id, data: d, timestamp: t },
            ),
            _ => None,
        }
    } else if bytes_is(tag.as_slice(), "tool_result") {
        match (get_str(&ms, "id"), get_raw(&ms, "data"), get_int(&ms, "timestamp")) {
            (Some(id), Some(d), Some(t)) => Some(
                AgentResponse::ToolResult { id, data: d, timestamp: t },
            ),
            _ => None,
        }
    } else if bytes_is(tag.as_slice(), "done") {
        match (get_str(&ms, "id"), get_int(&ms, "timestamp")) {
            (Some(id), Some(t)) => {
                if has_member(&ms, "data") {
                    match get_raw(&ms, "data") {
                        Some(d) => Some(
                            AgentResponse::Done { id, data: Some(d), timestamp: t },
                        ),
                        None => None,
                    }
                } else {
                    Some(AgentResponse::Done { id, data: None, timestamp: t })
                }
            },
            _ => None,
        }
    } else if bytes_is(tag.as_slice(), "error") {
        match (get_str(&ms, "id"), get_str(&ms, "error"), get_int(&ms, "timestamp")) {
            (Some(id), Some(e), Some(t)) => Some(
                AgentResponse::Error { id, error: e, timestamp: t },
            ),
            _ => None,
        }
    } else {
        None
    }
}

/// Decodes one assembled text line as a response.
pub fn decode_response(line: &str) -> (r: Option<AgentResponse>)
    ensures
        match (r, spec_decode_response(line.spec_bytes())) {
            (Some(a), Some(v)) => a@ == v,
            (None, None) => true,
            _ => false,
        },
{
    let b = line.as_bytes();
    decode_response_bytes(b)
}

/// The request a member list stands for, if any: `id` and `kind` are
/// required strings, the remaining fields optional strings; a member
/// list carrying other keys or other kinds stands for no request.
pub open spec fn req_of_members(ms: Seq<MemberV>) -> Option<ReqV> {
    match (str_field(ms, ascii_bytes("id"@)), str_field(ms, ascii_bytes("kind"@))) {
        (Some(id), Some(kind)) => {
            match (
                opt_str_field(ms, ascii_bytes("message"@)),
                opt_str_field(ms, ascii_bytes("images"@)),
                opt_str_field(ms, ascii_bytes("conversation_id"@)),
            ) {
                (Some(m), Some(im), Some(c)) => Some(
                    ReqV { id, kind, message: m, images: im, conversation_id: c },
                ),
                _ => None,
            }
        },
        _ => None,
    }
}

/// What one wire line decodes to, if it is a well-formed request.
pub open spec fn spec_decode_request(b: Seq<u8>) -> Option<ReqV> {
    match spec_members_of(b) {
        Some(ms) => req_of_members(ms),
        None => None,
    }
}

fn get_opt_str(ms: &Vec<Member>, key: &str) -> (r: Option<Option<String>>)
    requires
        vstd::string::is_ascii(key),
    ensures
        match (r, opt_str_field(ms@.map_values(|m: Member| m@), ascii_bytes(key@))) {
            (Some(a), Some(b)) => match (a, b) {
                (Some(x), Some(y)) => x@ == y,
                (None, None) => true,
                _ => false,
            },
            (None, None) => true,
            _ => false,
        },
{
    match find_member(ms, key) {
        None => Some(None),
        Some(m) => match &m.val {
            MVal::Str(c) => {
                let cc = c.clone();
                proof {
                    assert(cc@ =~= c@);
                }
                match bytes_to_string(cc) {
                    Some(s) => Some(Some(s)),
                    None => None,
                }
            },
            _ => None,
        },
    }
}

/// Decodes one line as a request, the counterpart of [`encode_request`].
pub fn decode_request_bytes(b: &[u8]) -> (r: Option<AgentRequest>)
    ensures
        match (r, spec_decode_request(b@)) {
            (Some(a), Some(v)) => a@ == v,
            (None, None) => true,
            _ => false,
        },
{
    proof {
        reveal_strlit("id");
        reveal_strlit("kind");
        reveal_strlit("message");
        reveal_strlit("images");
        reveal_strlit("conversation_id");
    }
    let ms = match parse_members(b) {
        Some(ms) => ms,
        None => {
            return None;
        },
    };
    let id = match get_str(&ms, "id") {
        Some(v) => v,
        None => {
            return None;
        },
    };
    let kind = match get_str(&ms, "kind") {
        Some(v) => v,
        None => {
            return None;
        },
    };
    let message = match get_opt_str(&ms, "message") {
        Some(v) => v,
        None => {
            return None;
        },
    };
    let images = match get_opt_str(&ms, "images") {
        Some(v) => v,
        None => {
            return None;
        },
    };
    let conversation_id = match get_opt_str(&ms, "conversation_id") {
        Some(v) => v,
        None => {
            return None;
        },
    };
    Some(AgentRequest { id, kind, message, images, conversation_id })
}

/// One serialized string member, `"key":"value"` with the value escaped.
pub open spec fn enc_str_member(key: Seq<char>, val: Seq<char>) -> Seq<u8> {
    seq![34u8] + ascii_bytes(key) + seq![34u8, 58u8, 34u8] + esc(encode_utf8(val)) + seq![34u8]
}

/// The members a request is serialized with, in order: `id` and `kind`
/// always, then each optional field that is present.
pub open spec fn req_members_of(v: ReqV) -> Seq<(Seq<char>, Seq<char>)> {
    let ms = seq![("id"@, v.id), ("kind"@, v.kind)];
    let ms1 = match v.message {
        Some(m) => ms.push(("message"@, m)),
        None => ms,
    };
    let ms2 = match v.images {
        Some(m) => ms1.push(("images"@, m)),
        None => ms1,
    };
    match v.conversation_id {
        Some(c) => ms2.push(("conversation_id"@, c)),
        None => ms2,
    }
}

/// Members joined with commas.
pub open spec fn enc_members(ms: Seq<(Seq<char>, Seq<char>)>) -> Seq<u8>
    decreases ms.len(),
{
    if ms.len() == 0 {
        Seq::empty()
    } else if ms.len() == 1 {
        enc_str_member(ms[0].0, ms[0].1)
    } else {
        enc_str_member(ms[0].0, ms[0].1) + seq![44u8] + enc_members(ms.drop_first())
    }
}

/// The exact wire form of a request: one JSON object, `id` and `kind`
/// first, optional fields only when present, all values escaped.
pub open spec fn spec_encode_request(v: ReqV) -> Seq<u8> {
    seq![123u8] + enc_members(req_members_of(v)) + seq![125u8]
}

pub proof fn lemma_enc_members_snoc(ms: Seq<(Seq<char>, Seq<char>)>, m: (Seq<char>, Seq<char>))
    requires
        ms.len() >= 1,
    ensures
        enc_members(ms.push(m)) == enc_members(ms) + seq![44u8] + enc_str_member(m.0, m.1),
    decreases ms.len(),
{
    let whole = ms.push(m);
    assert(whole[0] == ms[0]);
    if ms.len() == 1 {
        assert(whole.drop_first() =~= seq![m]);
        assert(seq![m][0] == m);
        assert(enc_members(seq![m]) == enc_str_member(m.0, m.1));
        assert(enc_members(whole) =~= enc_members(ms) + seq![44u8] + enc_str_member(m.0, m.1));
    } else {
        assert(whole.drop_first() =~= ms.drop_first().push(m));
        lemma_enc_members_snoc(ms.drop_first(), m);
        assert(enc_members(whole) =~= enc_members(ms) + seq![44u8] + enc_str_member(m.0, m.1));
    }
}

/// What the decoder captures for one encoded string member.
pub open spec fn cap_member(k: Seq<char>, x: Seq<char>) -> MemberV {
    MemberV {
        key: ascii_bytes(k),
        val: MValV::Str(encode_utf8(x)),
        raw: seq![34u8] + esc(encode_utf8(x)) + seq![34u8],
    }
}

pub open spec fn cap_members(ms: Seq<(Seq<char>, Seq<char>)>) -> Seq<MemberV> {
    ms.map_values(|m: (Seq<char>, Seq<char>)| cap_member(m.0, m.1))
}

pub open spec fn plain_keys(ms: Seq<(Seq<char>, Seq<char>)>) -> bool {
    forall|i: int| 0 <= i < ms.len() ==> crate::json::plain_bytes(ascii_bytes(#[trigger] ms[i].0))
}

pub proof fn lemma_enc_members_len(ms: Seq<(Seq<char>, Seq<char>)>)
    ensures
        enc_members(ms).len() >= ms.len(),
    decreases ms.len(),
{
    if ms.len() > 1 {
        lemma_enc_members_len(ms.drop_first());
    }
}

/// Parsing the encoded members of a request recovers exactly their
/// captured forms, ending at the closing brace.
#[verifier::rlimit(100)]
pub proof fn lemma_members_cap_encoded(
    s: Seq<u8>,
    i: int,
    ms: Seq<(Seq<char>, Seq<char>)>,
    f: nat,
    acc: Seq<MemberV>,
)
    requires
        ms.len() >= 1,
        f >= ms.len() + 1,
        plain_keys(ms),
        0 <= i,
        i + enc_members(ms).len() + 1 <= s.len(),
        s.subrange(i, i + enc_members(ms).len()) == enc_members(ms),
        s[i + enc_members(ms).len()] == 125,
    ensures
        spec_members_cap(s, i, f, acc) == Some(
            (acc + cap_members(ms), i + enc_members(ms).len() + 1),
        ),
    decreases ms.len(),
{
    let k = ms[0].0;
    let x = ms[0].1;
    let kb = ascii_bytes(k);
    let eb = esc(encode_utf8(x));
    let m0 = enc_str_member(k, x);
    let em = enc_members(ms);
    let klen = kb.len() as int;
    let elen = eb.len() as int;
    assert(m0 == seq![34u8] + kb + seq![34u8, 58u8, 34u8] + eb + seq![34u8]);
    assert(m0.len() == klen + elen + 5);
    assert(forall|t: int| 0 <= t < em.len() ==> #[trigger] s[i + t] == em[t]) by {
        assert(forall|t: int|
            0 <= t < em.len() ==> s.subrange(i, i + em.len())[t] == #[trigger] s[i + t]);
    }
    let rest = ms.drop_first();
    if ms.len() == 1 {
        assert(em == m0);
    } else {
        assert(em == m0 + seq![44u8] + enc_members(rest));
    }
    assert(forall|t: int| 0 <= t < m0.len() ==> em[t] == m0[t]) by {
        if ms.len() > 1 {
            assert(forall|t: int|
                0 <= t < m0.len() ==> em[t] == (m0 + seq![44u8])[t] && (m0 + seq![44u8])[t]
                    == m0[t]);
        }
    }
    // the member's own layout inside s
    assert(forall|t: int| 0 <= t < m0.len() ==> #[trigger] s[i + t] == m0[t]);
    assert(m0[0] == 34);
    assert(s[i + 0] == m0[0]);
    assert(s[i] == 34);
    assert(forall|t: int| 0 <= t < klen ==> m0[1 + t] == kb[t]) by {
        assert(forall|t: int|
            0 <= t < klen ==> m0[1 + t] == (seq![34u8] + kb)[1 + t] && (seq![34u8] + kb)[1 + t]
                == kb[t]);
    }
    assert(m0[klen + 1] == 34 && m0[klen + 2] == 58 && m0[klen + 3] == 34) by {
        let p = seq![34u8] + kb + seq![34u8, 58u8, 34u8];
        assert(p[klen + 1] == 34 && p[klen + 2] == 58 && p[klen + 3] == 34);
        assert(forall|t: int| 0 <= t < p.len() ==> m0[t] == p[t]);
    }
    assert(forall|t: int| 0 <= t < elen ==> m0[klen + 4 + t] == eb[t]) by {
        let p = seq![34u8] + kb + seq![34u8, 58u8, 34u8];
        assert(forall|t: int|
            0 <= t < elen ==> m0[klen + 4 + t] == (p + eb)[klen + 4 + t] && (p + eb)[klen + 4
                + t] == eb[t]);
    }
    assert(m0[klen + elen + 4] == 34);
    // key parse
    assert(crate::json::plain_bytes(kb));
    crate::json::lemma_esc_plain(kb);
    assert(s.subrange(i + 1, i + 1 + klen) =~= kb) by {
        assert(forall|t: int|
            0 <= t < klen ==> s.subrange(i + 1, i + 1 + klen)[t] == #[trigger] s[i + 1 + t]);
    }
    assert(s[i + 1 + klen] == 34);
    crate::json::lemma_string_body_escaped(s, i + 1, kb);
    assert(spec_string_body(s, i + 1) == Some((kb, i + klen + 2)));
    // colon and value quote
    assert(s[i + klen + 2] == 58);
    assert(spec_ws(s, i + klen + 2) == i + klen + 2);
    assert(s[i + klen + 3] == 34);
    assert(spec_ws(s, i + klen + 3) == i + klen + 3);
    let v0 = i + klen + 3;
    // value parse
    assert(s.subrange(v0 + 1, v0 + 1 + elen) =~= eb) by {
        assert(forall|t: int|
            0 <= t < elen ==> s.subrange(v0 + 1, v0 + 1 + elen)[t] == #[trigger] s[v0 + 1 + t]);
    }
    assert(s[v0 + 1 + elen] == 34);
    crate::json::lemma_string_body_escaped(s, v0 + 1, encode_utf8(x));
    let j3 = v0 + elen + 2;
    assert(spec_string_body(s, v0 + 1) == Some((encode_utf8(x), j3)));
    assert(spec_mval(s, v0, (f - 1) as nat) == Some((MValV::Str(encode_utf8(x)), j3)));
    assert(j3 == i + m0.len());
    assert(s.subrange(v0, j3) =~= seq![34u8] + eb + seq![34u8]) by {
        assert(forall|t: int|
            0 <= t < j3 - v0 ==> s.subrange(v0, j3)[t] == #[trigger] s[v0 + t]);
        assert(forall|t: int|
            0 <= t < elen ==> (seq![34u8] + eb + seq![34u8])[1 + t] == eb[t]);
    }
    let capm = cap_member(k, x);
    assert(MemberV { key: kb, val: MValV::Str(encode_utf8(x)), raw: s.subrange(v0, j3) } == capm);
    let acc2 = acc.push(capm);
    if ms.len() == 1 {
        assert(s[j3] == 125);
        assert(spec_ws(s, j3) == j3);
        assert(spec_members_cap(s, i, f, acc) == Some((acc2, j3 + 1)));
        assert(cap_members(ms) =~= seq![capm]);
        assert(acc + cap_members(ms) =~= acc2);
    } else {
        assert(s[i + m0.len()] == em[m0.len() as int]);
        assert(em[m0.len() as int] == 44) by {
            assert((m0 + seq![44u8])[m0.len() as int] == 44);
            assert(forall|t: int|
                0 <= t < (m0 + seq![44u8]).len() ==> em[t] == (m0 + seq![44u8])[t]);
        }
        assert(s[j3] == 44);
        assert(spec_ws(s, j3) == j3);
        let i2 = j3 + 1;
        let er = enc_members(rest);
        assert(forall|t: int| 0 <= t < er.len() ==> em[m0.len() + 1 + t] == er[t]) by {
            assert(forall|t: int|
                0 <= t < er.len() ==> em[m0.len() + 1 + t] == er[t] && (m0 + seq![44u8]
                    + er)[m0.len() + 1 + t] == er[t]);
        }
        assert(s.subrange(i2, i2 + er.len()) =~= er) by {
            assert(forall|t: int|
                0 <= t < er.len() ==> s.subrange(i2, i2 + er.len())[t] == #[trigger] s[i2 + t]);
        }
        assert(i2 + er.len() == i + em.len());
        assert(s[i2 + er.len()] == 125);
        assert(er[0] == 34) by {
            let mh = enc_str_member(rest[0].0, rest[0].1);
            assert(mh[0] == 34);
            if rest.len() == 1 {
            } else {
                assert(er[0] == (mh + seq![44u8] + enc_members(rest.drop_first()))[0]);
            }
        }
        assert(s[i2 + 0] == em[m0.len() as int + 1]);
        assert(s[i2] == 34);
        assert(spec_ws(s, i2) == i2);
        assert(plain_keys(rest)) by {
            assert(forall|t: int| 0 <= t < rest.len() ==> #[trigger] rest[t] == ms[t + 1]);
        }
        lemma_members_cap_encoded(s, i2, rest, (f - 1) as nat, acc2);
        assert(spec_members_cap(s, i, f, acc) == Some(
            (acc2 + cap_members(rest), i + em.len() + 1),
        ));
        assert(acc2 + cap_members(rest) =~= acc + cap_members(ms)) by {
            assert(cap_members(ms).len() == ms.len());
            assert(forall|t: int|
                0 <= t < rest.len() ==> cap_members(rest)[t] == cap_member(
                    rest[t].0,
                    rest[t].1,
                ) && #[trigger] rest[t] == ms[t + 1]);
            assert(forall|t: int|
                0 <= t < ms.len() ==> cap_members(ms)[t] == cap_member(ms[t].0, ms[t].1));
        }
    }
}

pub proof fn lemma_lookup_cap_hit(ms: Seq<(Seq<char>, Seq<char>)>, j: int)
    requires
        0 <= j < ms.len(),
        forall|t: int| 0 <= t < j ==> ascii_bytes(#[trigger] ms[t].0) != ascii_bytes(ms[j].0),
    ensures
        lookup(cap_members(ms), ascii_bytes(ms[j].0)) == Some(cap_member(ms[j].0, ms[j].1)),
    decreases j,
{
    let cm = cap_members(ms);
    assert(cm[0] == cap_member(ms[0].0, ms[0].1));
    if j == 0 {
        assert(cm[0].key == ascii_bytes(ms[0].0));
    } else {
        assert(cm[0].key == ascii_bytes(ms[0].0));
        assert(ascii_bytes(ms[0].0) != ascii_bytes(ms[j].0));
        assert(cm.drop_first() =~= cap_members(ms.drop_first())) by {
            assert(forall|t: int|
                0 <= t < ms.drop_first().len() ==> cap_members(ms.drop_first())[t] == cap_member(
                    #[trigger] ms.drop_first()[t].0,
                    ms.drop_first()[t].1,
                ) && ms.drop_first()[t] == ms[t + 1]);
        }
        assert(forall|t: int| 0 <= t < ms.drop_first().len() ==> #[trigger] ms.drop_first()[t]
            == ms[t + 1]);
        lemma_lookup_cap_hit(ms.drop_first(), j - 1);
    }
}

pub proof fn lemma_lookup_cap_miss(ms: Seq<(Seq<char>, Seq<char>)>, kb: Seq<u8>)
    requires
        forall|t: int| 0 <= t < ms.len() ==> ascii_bytes(#[trigger] ms[t].0) != kb,
    ensures
        lookup(cap_members(ms), kb) is None,
    decreases ms.len(),
{
    let cm = cap_members(ms);
    if ms.len() > 0 {
        assert(cm[0] == cap_member(ms[0].0, ms[0].1));
        assert(cm[0].key == ascii_bytes(ms[0].0));
        assert(cm.drop_first() =~= cap_members(ms.drop_first())) by {
            assert(forall|t: int|
                0 <= t < ms.drop_first().len() ==> cap_members(ms.drop_first())[t] == cap_member(
                    #[trigger] ms.drop_first()[t].0,
                    ms.drop_first()[t].1,
                ) && ms.drop_first()[t] == ms[t + 1]);
        }
        assert(forall|t: int| 0 <= t < ms.drop_first().len() ==> #[trigger] ms.drop_first()[t]
            == ms[t + 1]);
        lemma_lookup_cap_miss(ms.drop_first(), kb);
    }
}

/// Round-trip: decoding the encoded form of any request recovers
/// exactly its field values, with absent optional fields staying
/// absent.
#[verifier::rlimit(100)]
pub proof fn lemma_request_round_trip(v: ReqV)
    ensures
        spec_decode_request(spec_encode_request(v)) == Some(v),
{
    broadcast use vstd::utf8::encode_utf8_valid_utf8, vstd::utf8::encode_utf8_decode_utf8;

    reveal_strlit("id");
    reveal_strlit("kind");
    reveal_strlit("message");
    reveal_strlit("images");
    reveal_strlit("conversation_id");
    let ms = req_members_of(v);
    let em = enc_members(ms);
    let b = spec_encode_request(v);
    let kid = ascii_bytes("id"@);
    let kkind = ascii_bytes("kind"@);
    let kmsg = ascii_bytes("message"@);
    let kimg = ascii_bytes("images"@);
    let kconv = ascii_bytes("conversation_id"@);
    assert(kid.len() == 2 && kkind.len() == 4 && kmsg.len() == 7 && kimg.len() == 6 && kconv.len()
        == 15);
    assert(crate::json::plain_bytes(kid) && crate::json::plain_bytes(kkind)
        && crate::json::plain_bytes(kmsg) && crate::json::plain_bytes(kimg)
        && crate::json::plain_bytes(kconv));
    // every member's key is one of the five, with the matching value
    assert(ms[0] == ("id"@, v.id) && ms[1] == ("kind"@, v.kind));
    assert(forall|t: int|
        0 <= t < ms.len() ==> #[trigger] ms[t].0 == "id"@ || ms[t].0 == "kind"@ || ms[t].0
            == "message"@ || ms[t].0 == "images"@ || ms[t].0 == "conversation_id"@);
    assert(plain_keys(ms));
    lemma_enc_members_len(ms);
    assert(2 <= ms.len() <= 5);
    // the line's coarse structure
    assert(forall|t: int| 0 <= t < em.len() ==> b[t + 1] == em[t]) by {
        assert(forall|t: int|
            0 <= t < em.len() ==> b[t + 1] == (seq![123u8] + em)[t + 1] && (seq![123u8] + em)[t
                + 1] == em[t]);
    }
    assert(b[0] == 123);
    assert(b.len() == em.len() + 2);
    assert(b[em.len() as int + 1] == 125);
    assert(spec_ws(b, 0) == 0);
    assert(em[0] == 34) by {
        let mh = enc_str_member(ms[0].0, ms[0].1);
        assert(mh[0] == 34);
        if ms.len() > 1 {
            assert(em[0] == (mh + seq![44u8] + enc_members(ms.drop_first()))[0]);
        }
    }
    assert(b[0int + 1] == em[0int]);
    assert(b[1] == 34);
    assert(spec_ws(b, 1) == 1);
    assert(b.subrange(1, 1 + em.len() as int) =~= em) by {
        assert(forall|t: int|
            0 <= t < em.len() ==> b.subrange(1, 1 + em.len() as int)[t] == #[trigger] b[1 + t]);
    }
    lemma_members_cap_encoded(b, 1, ms, b.len() as nat, Seq::empty());
    let cm = cap_members(ms);
    assert(spec_members_cap(b, 1, b.len() as nat, Seq::empty()) == Some(
        (Seq::empty() + cm, b.len() as int),
    ));
    assert(Seq::empty() + cm =~= cm);
    assert(spec_obj_cap(b, 1, b.len() as nat, Seq::empty()) == Some((cm, b.len() as int)));
    assert(spec_ws(b, b.len() as int) == b.len());
    assert(spec_members_of(b) == Some(cm));
    // field lookups
    assert(cm.len() == ms.len());
    lemma_lookup_cap_hit(ms, 0);
    assert(str_field(cm, kid) == Some(v.id));
    assert(ascii_bytes(ms[0].0) != ascii_bytes(ms[1].0));
    lemma_lookup_cap_hit(ms, 1);
    assert(str_field(cm, kkind) == Some(v.kind));
    match v.message {
        Some(m) => {
            assert(ms[2] == ("message"@, m));
            assert(forall|t: int| 0 <= t < 2 ==> ascii_bytes(#[trigger] ms[t].0) != kmsg);
            lemma_lookup_cap_hit(ms, 2);
            assert(opt_str_field(cm, kmsg) == Some(Some(m)));
        },
        None => {
            assert(forall|t: int| 0 <= t < ms.len() ==> ascii_bytes(#[trigger] ms[t].0) != kmsg);
            lemma_lookup_cap_miss(ms, kmsg);
            assert(opt_str_field(cm, kmsg) == Some(None::<Seq<char>>));
        },
    }
    match v.images {
        Some(m) => {
            let j: int = if v.message is Some {
                3
            } else {
                2
            };
            assert(ms[j] == ("images"@, m));
            assert(forall|t: int| 0 <= t < j ==> ascii_bytes(#[trigger] ms[t].0) != kimg);
            lemma_lookup_cap_hit(ms, j);
            assert(opt_str_field(cm, kimg) == Some(Some(m)));
        },
        None => {
            assert(forall|t: int| 0 <= t < ms.len() ==> ascii_bytes(#[trigger] ms[t].0) != kimg);
            lemma_lookup_cap_miss(ms, kimg);
            assert(opt_str_field(cm, kimg) == Some(None::<Seq<char>>));
        },
    }
    match v.conversation_id {
        Some(m) => {
            let j: int = ms.len() as int - 1;
            assert(ms[j] == ("conversation_id"@, m));
            assert(forall|t: int| 0 <= t < j ==> ascii_bytes(#[trigger] ms[t].0) != kconv);
            lemma_lookup_cap_hit(ms, j);
            assert(opt_str_field(cm, kconv) == Some(Some(m)));
        },
        None => {
            assert(forall|t: int| 0 <= t < ms.len() ==> ascii_bytes(#[trigger] ms[t].0) != kconv);
            lemma_lookup_cap_miss(ms, kconv);
            assert(opt_str_field(cm, kconv) == Some(None::<Seq<char>>));
        },
    }
    assert(req_of_members(cm) == Some(v));
}

pub proof fn lemma_member_no_nl(key: Seq<char>, val: Seq<char>)
    requires
        crate::json::no_nl_bytes(ascii_bytes(key)),
    ensures
        crate::json::no_nl_bytes(enc_str_member(key, val)),
{
    crate::json::lemma_esc_no_nl(encode_utf8(val));
    let m = enc_str_member(key, val);
    let p1 = seq![34u8] + ascii_bytes(key);
    let p2 = p1 + seq![34u8, 58u8, 34u8];
    let p3 = p2 + esc(encode_utf8(val));
    assert(m =~= p3 + seq![34u8]);
    assert forall|k: int| 0 <= k < m.len() implies m[k] != 10 by {
        if k < p3.len() {
            assert(m[k] == p3[k]);
            if k < p2.len() {
                assert(p3[k] == p2[k]);
                if k < p1.len() {
                    assert(p2[k] == p1[k]);
                    if k >= 1 {
                        assert(p1[k] == ascii_bytes(key)[k - 1]);
                    }
                } else {
                    assert(p2[k] == seq![34u8, 58u8, 34u8][k - p1.len()]);
                }
            } else {
                assert(p3[k] == esc(encode_utf8(val))[k - p2.len()]);
            }
        }
    }
}

pub proof fn lemma_members_no_nl(ms: Seq<(Seq<char>, Seq<char>)>)
    requires
        forall|i: int| 0 <= i < ms.len() ==> crate::json::no_nl_bytes(ascii_bytes(#[trigger] ms[i].0)),
    ensures
        crate::json::no_nl_bytes(enc_members(ms)),
    decreases ms.len(),
{
    if ms.len() == 0 {
    } else if ms.len() == 1 {
        lemma_member_no_nl(ms[0].0, ms[0].1);
    } else {
        lemma_member_no_nl(ms[0].0, ms[0].1);
        lemma_members_no_nl(ms.drop_first());
        let hd = enc_str_member(ms[0].0, ms[0].1);
        let whole = enc_members(ms);
        assert forall|k: int| 0 <= k < whole.len() implies whole[k] != 10 by {
            if k < hd.len() {
                assert(whole[k] == hd[k]);
            } else if k == hd.len() {
                assert(whole[k] == 44);
            } else {
                assert(whole[k] == enc_members(ms.drop_first())[k - hd.len() - 1]);
            }
        }
    }
}

/// An encoded request never holds a line feed: the whole line is one
/// frame.
pub proof fn lemma_encode_request_no_nl(v: ReqV)
    ensures
        crate::json::no_nl_bytes(spec_encode_request(v)),
{
    assert(crate::json::no_nl_bytes(ascii_bytes("id"@))) by {
        reveal_strlit("id");
    }
    assert(crate::json::no_nl_bytes(ascii_bytes("kind"@))) by {
        reveal_strlit("kind");
    }
    assert(crate::json::no_nl_bytes(ascii_bytes("message"@))) by {
        reveal_strlit("message");
    }
    assert(crate::json::no_nl_bytes(ascii_bytes("images"@))) by {
        reveal_strlit("images");
    }
    assert(crate::json::no_nl_bytes(ascii_bytes("conversation_id"@))) by {
        reveal_strlit("conversation_id");
    }
    let ms = req_members_of(v);
    assert(forall|i: int| 0 <= i < ms.len() ==> #[trigger] ms[i].0 == "id"@ || ms[i].0 == "kind"@
        || ms[i].0 == "message"@ || ms[i].0 == "images"@ || ms[i].0 == "conversation_id"@);
    lemma_members_no_nl(ms);
    let whole = spec_encode_request(v);
    let inner = enc_members(ms);
    assert forall|k: int| 0 <= k < whole.len() implies whole[k] != 10 by {
        if k == 0 {
            assert(whole[k] == 123);
        } else if k <= inner.len() {
            assert(whole[k] == inner[k - 1]);
        } else {
            assert(whole[k] == 125);
        }
    }
}

fn push_str_member(out: &mut Vec<u8>, key: &str, val: &String)
    requires
        vstd::string::is_ascii(key),
    ensures
        final(out)@ == old(out)@ + enc_str_member(key@, val@),
{
    out.push(34);
    push_ascii(out, key);
    out.push(34);
    out.push(58);
    out.push(34);
    let vb = val.as_str().as_bytes();
    let mut e = escaped(vb);
    out.append(&mut e);
    out.push(34);
    proof {
        assert(out@ =~= old(out)@ + enc_str_member(key@, val@));
    }
}

/// Serializes a request to its single-line wire form (terminator not
/// included).
#[verifier::rlimit(60)]
pub fn encode_request(r: &AgentRequest) -> (out: Vec<u8>)
    ensures
        out@ == spec_encode_request(r@),
{
    proof {
        reveal_strlit("id");
        reveal_strlit("kind");
        reveal_strlit("message");
        reveal_strlit("images");
        reveal_strlit("conversation_id");
    }
    let mut out: Vec<u8> = Vec::new();
    out.push(123);
    push_str_member(&mut out, "id", &r.id);
    out.push(44);
    push_str_member(&mut out, "kind", &r.kind);
    let ghost ms0 = seq![("id"@, r.id@), ("kind"@, r.kind@)];
    let ghost mut msc = ms0;
    proof {
        assert(ms0.drop_first() =~= seq![("kind"@, r.kind@)]);
        assert(seq![("kind"@, r.kind@)][0] == ("kind"@, r.kind@));
        assert(enc_members(seq![("kind"@, r.kind@)]) == enc_str_member("kind"@, r.kind@));
        assert(enc_members(ms0) =~= enc_str_member("id"@, r.id@) + seq![44u8] + enc_members(
            ms0.drop_first(),
        ));
        assert(out@ =~= seq![123u8] + enc_members(ms0));
    }
    match &r.message {
        Some(m) => {
            out.push(44);
            push_str_member(&mut out, "message", m);
            proof {
                lemma_enc_members_snoc(msc, ("message"@, m@));
                msc = msc.push(("message"@, m@));
                assert(out@ =~= seq![123u8] + enc_members(msc));
            }
        },
        None => {},
    }
    match &r.images {
        Some(m) => {
            out.push(44);
            push_str_member(&mut out, "images", m);
            proof {
                lemma_enc_members_snoc(msc, ("images"@, m@));
                msc = msc.push(("images"@, m@));
                assert(out@ =~= seq![123u8] + enc_members(msc));
            }
        },
        None => {},
    }
    match &r.conversation_id {
        Some(m) => {
            out.push(44);
            push_str_member(&mut out, "conversation_id", m);
            proof {
                lemma_enc_members_snoc(msc, ("conversation_id"@, m@));
                msc = msc.push(("conversation_id"@, m@));
                assert(out@ =~= seq![123u8] + enc_members(msc));
            }
        },
        None => {},
    }
    out.push(125);
    proof {
        assert(msc == req_members_of(r@));
        assert(out@ =~= seq![123u8] + enc_members(req_members_of(r@)) + seq![125u8]);
    }
    out
}

} // verus!
