//! The message model: header, questions and resource records, and how each
//! of them is read from and written to a byte buffer.
use vstd::prelude::*;

use crate::names::{
    labels_fit, labels_of, labels_within_limit, lemma_wire_len, name_text, name_wire,
};
use crate::parser::{
    be16, lemma_put_put, outcome, u16_bytes, u32_bytes, write_outcome, BufferView,
    DnsBytePacketBuffer, CAPACITY,
};
use crate::{DnsError, Result};

verus! {

/// The 4-bit status of a response.
#[derive(Debug, Clone, Copy, PartialEq, Eq, Structural)]
pub enum ResponseCode {
    NOERROR,
    FORMATERROR,
    SERVERFAILURE,
    NAMEERROR,
    NOTIMPLEMENTED,
    REFUSED,
    /// Reserved for the codes 6 to 15.
    FUTURE,
}

/// The response code that a 4-bit value stands for; values above 15 are
/// not response codes and read as `NOERROR`.
pub open spec fn rcode_of(n: u8) -> ResponseCode {
    if n == 1 {
        ResponseCode::FORMATERROR
    } else if n == 2 {
        ResponseCode::SERVERFAILURE
    } else if n == 3 {
        ResponseCode::NAMEERROR
    } else if n == 4 {
        ResponseCode::NOTIMPLEMENTED
    } else if n == 5 {
        ResponseCode::REFUSED
    } else if 6 <= n <= 15 {
        ResponseCode::FUTURE
    } else {
        ResponseCode::NOERROR
    }
}

/// The value written for a response code; `FUTURE` is written as 6.
pub open spec fn rcode_value(c: ResponseCode) -> u8 {
    match c {
        ResponseCode::NOERROR => 0,
        ResponseCode::FORMATERROR => 1,
        ResponseCode::SERVERFAILURE => 2,
        ResponseCode::NAMEERROR => 3,
        ResponseCode::NOTIMPLEMENTED => 4,
        ResponseCode::REFUSED => 5,
        ResponseCode::FUTURE => 6,
    }
}

impl From<u8> for ResponseCode {
    fn from(n: u8) -> Self {
        match n {
            1 => Self::FORMATERROR,
            2 => Self::SERVERFAILURE,
            3 => Self::NAMEERROR,
            4 => Self::NOTIMPLEMENTED,
            5 => Self::REFUSED,
            6..=15 => Self::FUTURE,
            _ => Self::NOERROR,
        }
    }
}

impl vstd::std_specs::convert::FromSpecImpl<u8> for ResponseCode {
    open spec fn obeys_from_spec() -> bool {
        true
    }

    open spec fn from_spec(n: u8) -> Self {
        rcode_of(n)
    }
}

impl ResponseCode {
    /// The 4-bit value of this code.
    pub fn value(&self) -> (r: u8)
        ensures
            r == rcode_value(*self),
    {
        match self {
            ResponseCode::NOERROR => 0,
            ResponseCode::FORMATERROR => 1,
            ResponseCode::SERVERFAILURE => 2,
            ResponseCode::NAMEERROR => 3,
            ResponseCode::NOTIMPLEMENTED => 4,
            ResponseCode::REFUSED => 5,
            ResponseCode::FUTURE => 6,
        }
    }
}

impl Default for ResponseCode {
    fn default() -> (r: Self)
        ensures
            r == ResponseCode::NOERROR,
    {
        Self::NOERROR
    }
}

/// The type of a question or a record, with a fallback for codes that have
/// no name here.
#[derive(Debug, Clone, Copy, PartialEq, Eq, Structural)]
pub enum QueryType {
    /// 1 a host address
    A,
    /// 2 an authoritative name server
    NS,
    /// 3 a mail destination (Obsolete - use MX)
    MD,
    /// 4 a mail forwarder (Obsolete - use MX)
    MF,
    /// 5 the canonical name for an alias
    CNAME,
    /// 6 marks the start of a zone of authority
    SOA,
    /// 7 a mailbox domain name (EXPERIMENTAL)
    MB,
    /// 8 a mail group member (EXPERIMENTAL)
    MG,
    /// 9 a mail rename domain name (EXPERIMENTAL)
    MR,
    /// 10 a null RR (EXPERIMENTAL)
    NULL,
    /// 11 a well known service description
    WKS,
    /// 12 a domain name pointer
    PTR,
    /// 13 host information
    HINFO,
    /// 14 mailbox or mail list information
    MINFO,
    /// 15 mail exchange
    MX,
    /// 16 text strings
    TXT,
    /// any other code, kept as it is
    UNKNOWN(u16),
}

/// The wire code of a type.
pub open spec fn type_code(t: QueryType) -> u16 {
    match t {
        QueryType::A => 1,
        QueryType::NS => 2,
        QueryType::MD => 3,
        QueryType::MF => 4,
        QueryType::CNAME => 5,
        QueryType::SOA => 6,
        QueryType::MB => 7,
        QueryType::MG => 8,
        QueryType::MR => 9,
        QueryType::NULL => 10,
        QueryType::WKS => 11,
        QueryType::PTR => 12,
        QueryType::HINFO => 13,
        QueryType::MINFO => 14,
        QueryType::MX => 15,
        QueryType::TXT => 16,
        QueryType::UNKNOWN(y) => y,
    }
}

/// The type that a wire code stands for.
pub open spec fn type_of(n: u16) -> QueryType {
    if n == 1 {
        QueryType::A
    } else if n == 2 {
        QueryType::NS
    } else if n == 3 {
        QueryType::MD
    } else if n == 4 {
        QueryType::MF
    } else if n == 5 {
        QueryType::CNAME
    } else if n == 6 {
        QueryType::SOA
    } else if n == 7 {
        QueryType::MB
    } else if n == 8 {
        QueryType::MG
    } else if n == 9 {
        QueryType::MR
    } else if n == 10 {
        QueryType::NULL
    } else if n == 11 {
        QueryType::WKS
    } else if n == 12 {
        QueryType::PTR
    } else if n == 13 {
        QueryType::HINFO
    } else if n == 14 {
        QueryType::MINFO
    } else if n == 15 {
        QueryType::MX
    } else if n == 16 {
        QueryType::TXT
    } else {
        QueryType::UNKNOWN(n)
    }
}

/// A type in the form that reading its code gives: `UNKNOWN` only for codes
/// that have no name.
pub open spec fn canonical_type(t: QueryType) -> bool {
    t matches QueryType::UNKNOWN(y) ==> !(1 <= y <= 16)
}

impl From<QueryType> for u16 {
    fn from(num: QueryType) -> Self {
        match num {
            QueryType::A => 1,
            QueryType::NS => 2,
            QueryType::MD => 3,
            QueryType::MF => 4,
            QueryType::CNAME => 5,
            QueryType::SOA => 6,
            QueryType::MB => 7,
            QueryType::MG => 8,
            QueryType::MR => 9,
            QueryType::NULL => 10,
            QueryType::WKS => 11,
            QueryType::PTR => 12,
            QueryType::HINFO => 13,
            QueryType::MINFO => 14,
            QueryType::MX => 15,
            QueryType::TXT => 16,
            QueryType::UNKNOWN(y) => y,
        }
    }
}

impl vstd::std_specs::convert::FromSpecImpl<QueryType> for u16 {
    open spec fn obeys_from_spec() -> bool {
        true
    }

    open spec fn from_spec(t: QueryType) -> Self {
        type_code(t)
    }
}

impl From<u16> for QueryType {
    fn from(num: u16) -> Self {
        match num {
            1 => QueryType::A,
            2 => QueryType::NS,
            3 => QueryType::MD,
            4 => QueryType::MF,
            5 => QueryType::CNAME,
            6 => QueryType::SOA,
            7 => QueryType::MB,
            8 => QueryType::MG,
            9 => QueryType::MR,
            10 => QueryType::NULL,
            11 => QueryType::WKS,
            12 => QueryType::PTR,
            13 => QueryType::HINFO,
            14 => QueryType::MINFO,
            15 => QueryType::MX,
            16 => QueryType::TXT,
            y => QueryType::UNKNOWN(y),
        }
    }
}

impl vstd::std_specs::convert::FromSpecImpl<u16> for QueryType {
    open spec fn obeys_from_spec() -> bool {
        true
    }

    open spec fn from_spec(n: u16) -> Self {
        type_of(n)
    }
}

impl Default for QueryType {
    fn default() -> (r: Self)
        ensures
            r == QueryType::A,
    {
        Self::A
    }
}

/// Every code reads as a type that gives the code back, and every canonical
/// type is what its own code reads as: the two mappings are inverse.
pub proof fn lemma_type_code_round_trip(n: u16, t: QueryType)
    ensures
        type_code(type_of(n)) == n,
        canonical_type(type_of(n)),
        canonical_type(t) ==> type_of(type_code(t)) == t,
{
}

/// The class of a question or a record, with a fallback for codes that have
/// no name here.
#[derive(Debug, Clone, Copy, PartialEq, Eq, Structural)]
pub enum DnsClass {
    IN,
    CS,
    CH,
    HS,
    /// any other code, kept as it is
    UNKNOWN(u16),
}

/// The class that a wire code stands for.
pub open spec fn class_of(n: u16) -> DnsClass {
    if n == 1 {
        DnsClass::IN
    } else if n == 2 {
        DnsClass::CS
    } else if n == 3 {
        DnsClass::CH
    } else if n == 4 {
        DnsClass::HS
    } else {
        DnsClass::UNKNOWN(n)
    }
}

/// The wire code of a class.
pub open spec fn class_code(c: DnsClass) -> u16 {
    match c {
        DnsClass::IN => 1,
        DnsClass::CS => 2,
        DnsClass::CH => 3,
        DnsClass::HS => 4,
        DnsClass::UNKNOWN(y) => y,
    }
}

/// A class in the form that reading its code gives: `UNKNOWN` only for codes
/// that have no name.
pub open spec fn canonical_class(c: DnsClass) -> bool {
    c matches DnsClass::UNKNOWN(y) ==> !(1 <= y <= 4)
}

impl From<u16> for DnsClass {
    fn from(num: u16) -> Self {
        match num {
            1 => Self::IN,
            2 => Self::CS,
            3 => Self::CH,
            4 => Self::HS,
            y => Self::UNKNOWN(y),
        }
    }
}

impl vstd::std_specs::convert::FromSpecImpl<u16> for DnsClass {
    open spec fn obeys_from_spec() -> bool {
        true
    }

    open spec fn from_spec(n: u16) -> Self {
        class_of(n)
    }
}

impl From<DnsClass> for u16 {
    fn from(c: DnsClass) -> Self {
        match c {
            DnsClass::IN => 1,
            DnsClass::CS => 2,
            DnsClass::CH => 3,
            DnsClass::HS => 4,
            DnsClass::UNKNOWN(y) => y,
        }
    }
}

impl vstd::std_specs::convert::FromSpecImpl<DnsClass> for u16 {
    open spec fn obeys_from_spec() -> bool {
        true
    }

    open spec fn from_spec(c: DnsClass) -> Self {
        class_code(c)
    }
}

/// Every code reads as a class that gives the code back, and every canonical
/// class is what its own code reads as: the two mappings are inverse.
pub proof fn lemma_class_code_round_trip(n: u16, c: DnsClass)
    ensures
        class_code(class_of(n)) == n,
        canonical_class(class_of(n)),
        canonical_class(c) ==> class_of(class_code(c)) == c,
{
}

impl Default for DnsClass {
    fn default() -> (r: Self)
        ensures
            r == DnsClass::IN,
    {
        Self::IN
    }
}

/// The fixed 12-byte head of a message.
#[derive(Debug, Clone, Copy, PartialEq, Eq, Structural)]
pub struct DnsHeader {
    /// 16bits packet identifier
    pub id: u16,
    /// 1bit query response (0 if query, 1 if response)
    pub qr: bool,
    /// 4bits operation code
    pub op_code: u8,
    /// 1bit authoritative answer
    pub aa: bool,
    /// 1bit truncated message
    pub tc: bool,
    /// 1bit recursion desired
    pub rd: bool,
    /// 1bit recursion available
    pub ra: bool,
    /// reserved: never written, always false once read
    pub z: bool,
    /// 4bits response code
    pub r_code: ResponseCode,
    /// 16bits question count
    pub qd_count: u16,
    /// 16bits answer count
    pub an_count: u16,
    /// 16bits authority count
    pub ns_count: u16,
    /// 16bits additional count
    pub ar_count: u16,
}

/// A header with every flag off, every count zero and no error.
pub open spec fn empty_header() -> DnsHeader {
    DnsHeader {
        id: 0,
        qr: false,
        op_code: 0,
        aa: false,
        tc: false,
        rd: false,
        ra: false,
        z: false,
        r_code: ResponseCode::NOERROR,
        qd_count: 0,
        an_count: 0,
        ns_count: 0,
        ar_count: 0,
    }
}

/// The first flag byte: query/response (bit 7), the low four bits of the
/// opcode (bits 6-3), authoritative (bit 2), truncated (bit 1), recursion
/// desired (bit 0).
pub open spec fn flags_hi(h: DnsHeader) -> u8 {
    (if h.rd { 1u8 } else { 0u8 }) | (if h.tc { 2u8 } else { 0u8 }) | (if h.aa { 4u8 } else { 0u8 })
        | ((h.op_code & 0x0F) << 3u8) | (if h.qr { 0x80u8 } else { 0u8 })
}

/// The second flag byte: recursion available (bit 7), response code
/// (bits 3-0). The reserved bits 6-4 are always zero, whatever `z` says.
pub open spec fn flags_lo(h: DnsHeader) -> u8 {
    rcode_value(h.r_code) | (if h.ra { 0x80u8 } else { 0u8 })
}

/// The wire form of a header, counts as they stand in it.
pub open spec fn header_wire(h: DnsHeader) -> Seq<u8> {
    u16_bytes(h.id) + seq![flags_hi(h), flags_lo(h)] + u16_bytes(h.qd_count) + u16_bytes(
        h.an_count,
    ) + u16_bytes(h.ns_count) + u16_bytes(h.ar_count)
}

/// The header that twelve bytes hold; the reserved bit is not read.
pub open spec fn header_of(b: Seq<u8>) -> DnsHeader {
    let a = b[2];
    let c = b[3];
    DnsHeader {
        id: be16(b[0], b[1]),
        qr: (a >> 7u8) > 0,
        op_code: (a >> 3u8) & 0x0F,
        aa: ((a >> 2u8) & 1) > 0,
        tc: ((a >> 1u8) & 1) > 0,
        rd: (a & 1) > 0,
        ra: (c >> 7u8) > 0,
        z: false,
        r_code: rcode_of(c & 0x0F),
        qd_count: be16(b[4], b[5]),
        an_count: be16(b[6], b[7]),
        ns_count: be16(b[8], b[9]),
        ar_count: be16(b[10], b[11]),
    }
}

/// Reading a header at the cursor: twelve bytes must hold data.
pub open spec fn header_step(v: BufferView) -> Result<(DnsHeader, BufferView)> {
    if v.pos + 12 <= v.valid_len {
        Ok((header_of(v.bytes.subrange(v.pos as int, v.pos + 12int)), v.with_pos(v.pos + 12)))
    } else {
        Err(DnsError::BufferExhausted)
    }
}

impl Default for DnsHeader {
    fn default() -> (r: Self)
        ensures
            r == empty_header(),
    {
        DnsHeader::new()
    }
}

impl DnsHeader {
    /// A header with every flag off, every count zero and no error.
    pub fn new() -> (r: Self)
        ensures
            r == empty_header(),
    {
        Self {
            id: 0,
            qr: false,
            op_code: 0,
            aa: false,
            tc: false,
            rd: false,
            ra: false,
            z: false,
            r_code: ResponseCode::NOERROR,
            qd_count: 0,
            an_count: 0,
            ns_count: 0,
            ar_count: 0,
        }
    }

    /// Reads a header at the cursor; on failure the buffer stays as it was.
    pub fn read(dbuf: &mut DnsBytePacketBuffer) -> (r: Result<Self>)
        requires
            old(dbuf).inv(),
        ensures
            final(dbuf).inv(),
            outcome(r, old(dbuf)@, final(dbuf)@, header_step(old(dbuf)@)),
    {
        let p = dbuf.get_pos();
        if !(p <= CAPACITY - 12 && p + 12 <= dbuf.valid_len()) {
            return Err(DnsError::BufferExhausted);
        }
        let ghost v = dbuf@;
        let ghost b = v.bytes.subrange(v.pos as int, v.pos + 12int);
        let id = read_u16_ok(dbuf);
        let a = read_u8_ok(dbuf);
        let c = read_u8_ok(dbuf);
        let qd_count = read_u16_ok(dbuf);
        let an_count = read_u16_ok(dbuf);
        let ns_count = read_u16_ok(dbuf);
        let ar_count = read_u16_ok(dbuf);
        let header = DnsHeader {
            id,
            qr: (a >> 7) > 0,
            op_code: (a >> 3) & 0x0F,
            aa: ((a >> 2) & 1) > 0,
            tc: ((a >> 1) & 1) > 0,
            rd: (a & 1) > 0,
            ra: (c >> 7) > 0,
            z: false,
            r_code: ResponseCode::from(c & 0x0F),
            qd_count,
            an_count,
            ns_count,
            ar_count,
        };
        assert(header == header_of(b));
        Ok(header)
    }

    /// Writes the header at the cursor, counts as they stand in it, the
    /// opcode cut to four bits and the reserved bits zero; on failure the
    /// buffer stays as it was.
    #[verifier::rlimit(40)]
    pub fn write(&self, buffer: &mut DnsBytePacketBuffer) -> (r: Result<()>)
        requires
            old(buffer).inv(),
        ensures
            final(buffer).inv(),
            write_outcome(r, old(buffer)@, final(buffer)@, old(buffer)@.write_step(header_wire(*self))),
    {
        if buffer.get_pos() > CAPACITY - 12 {
            return Err(DnsError::BufferFull);
        }
        let ghost v = buffer@;
        let rd: u8 = if self.rd { 1 } else { 0 };
        let tc: u8 = if self.tc { 2 } else { 0 };
        let aa: u8 = if self.aa { 4 } else { 0 };
        let qr: u8 = if self.qr { 0x80 } else { 0 };
        let hi: u8 = rd | tc | aa | ((self.op_code & 0x0F) << 3u8) | qr;
        let ra: u8 = if self.ra { 0x80 } else { 0 };
        let lo: u8 = self.r_code.value() | ra;
        write_u16_ok(buffer, self.id);
        write_u8_ok(buffer, hi);
        proof {
            lemma_put_put(v, u16_bytes(self.id), seq![hi]);
        }
        write_u8_ok(buffer, lo);
        proof {
            lemma_put_put(v, u16_bytes(self.id) + seq![hi], seq![lo]);
        }
        let ghost w1 = u16_bytes(self.id) + seq![hi] + seq![lo];
        write_u16_ok(buffer, self.qd_count);
        proof {
            lemma_put_put(v, w1, u16_bytes(self.qd_count));
        }
        let ghost w2 = w1 + u16_bytes(self.qd_count);
        write_u16_ok(buffer, self.an_count);
        proof {
            lemma_put_put(v, w2, u16_bytes(self.an_count));
        }
        let ghost w3 = w2 + u16_bytes(self.an_count);
        write_u16_ok(buffer, self.ns_count);
        proof {
            lemma_put_put(v, w3, u16_bytes(self.ns_count));
        }
        let ghost w4 = w3 + u16_bytes(self.ns_count);
        write_u16_ok(buffer, self.ar_count);
        proof {
            lemma_put_put(v, w4, u16_bytes(self.ar_count));
            assert(w4 + u16_bytes(self.ar_count) =~= header_wire(*self));
        }
        Ok(())
    }
}

/// Reads a byte that is known to hold data.
fn read_u8_ok(dbuf: &mut DnsBytePacketBuffer) -> (r: u8)
    requires
        old(dbuf).inv(),
        old(dbuf)@.pos < old(dbuf)@.valid_len,
    ensures
        final(dbuf).inv(),
        old(dbuf)@.read_u8_step() == Ok::<(u8, BufferView), DnsError>((r, final(dbuf)@)),
{
    match dbuf.read() {
        Ok(x) => x,
        Err(_) => 0,
    }
}

/// Reads a 16-bit integer whose two bytes are known to hold data.
fn read_u16_ok(dbuf: &mut DnsBytePacketBuffer) -> (r: u16)
    requires
        old(dbuf).inv(),
        old(dbuf)@.pos + 2 <= old(dbuf)@.valid_len,
    ensures
        final(dbuf).inv(),
        old(dbuf)@.read_u16_step() == Ok::<(u16, BufferView), DnsError>((r, final(dbuf)@)),
{
    match dbuf.read_u16() {
        Ok(x) => x,
        Err(_) => 0,
    }
}

/// Writes a byte where it is known to fit.
fn write_u8_ok(buffer: &mut DnsBytePacketBuffer, v: u8)
    requires
        old(buffer).inv(),
        old(buffer)@.pos + 1 <= CAPACITY,
    ensures
        final(buffer).inv(),
        final(buffer)@ == old(buffer)@.put(seq![v]),
{
    let _ = buffer.write_u8(v);
}

/// Writes a 16-bit integer where it is known to fit.
fn write_u16_ok(buffer: &mut DnsBytePacketBuffer, v: u16)
    requires
        old(buffer).inv(),
        old(buffer)@.pos + 2 <= CAPACITY,
    ensures
        final(buffer).inv(),
        final(buffer)@ == old(buffer)@.put(u16_bytes(v)),
{
    let _ = buffer.write_u16(v);
}

/// Reading only moves the cursor: the bytes and the data length stay.
pub open spec fn same_data(a: BufferView, b: BufferView) -> bool {
    a.bytes == b.bytes && a.valid_len == b.valid_len && b.wf()
}

/// A question as mathematical values.
pub struct QuestionView {
    pub label: Seq<char>,
    pub q_type: QueryType,
    pub q_class: DnsClass,
}

/// One entry of the question section.
#[derive(Debug)]
pub struct DnsQuestion {
    /// the name asked about, dot-joined
    pub label: String,
    /// 2byte record type
    pub q_type: QueryType,
    /// 2byte class, written as IN
    pub q_class: DnsClass,
}

impl View for DnsQuestion {
    type V = QuestionView;

    open spec fn view(&self) -> QuestionView {
        QuestionView { label: self.label@, q_type: self.q_type, q_class: self.q_class }
    }
}

/// The bytes of a name given as text.
pub open spec fn text_bytes(t: Seq<char>) -> Seq<u8> {
    vstd::utf8::encode_utf8(t)
}

/// Reading a question at the cursor: name, type, class.
pub open spec fn question_step(v: BufferView) -> Result<(QuestionView, BufferView)> {
    match v.read_name_step() {
        Ok((ls, v1)) => match v1.read_u16_step() {
            Ok((t, v2)) => match v2.read_u16_step() {
                Ok((c, v3)) => Ok(
                    (QuestionView { label: name_text(ls), q_type: type_of(t), q_class: class_of(c) }, v3),
                ),
                Err(e) => Err(e),
            },
            Err(e) => Err(e),
        },
        Err(e) => Err(e),
    }
}

/// Reading `n` questions in a row.
pub open spec fn questions_step(v: BufferView, n: nat) -> Result<(Seq<QuestionView>, BufferView)>
    decreases n,
{
    if n == 0 {
        Ok((seq![], v))
    } else {
        match question_step(v) {
            Ok((q, v1)) => match questions_step(v1, (n - 1) as nat) {
                Ok((qs, v2)) => Ok((seq![q] + qs, v2)),
                Err(e) => Err(e),
            },
            Err(e) => Err(e),
        }
    }
}

/// The outcome of the rest of a run of reads, once `done` has been read.
pub open spec fn after_done<T>(done: Seq<T>, rest: Result<(Seq<T>, BufferView)>) -> Result<
    (Seq<T>, BufferView),
> {
    match rest {
        Ok((xs, v)) => Ok((done + xs, v)),
        Err(e) => Err(e),
    }
}

/// The wire form of a question; the class is always written as IN.
pub open spec fn question_wire(q: QuestionView) -> Seq<u8> {
    name_wire(text_bytes(q.label)) + u16_bytes(type_code(q.q_type)) + u16_bytes(1)
}

/// Writing a question at the cursor: a label that is too long fails first,
/// then a question that does not fit.
pub open spec fn question_write_step(v: BufferView, q: QuestionView) -> Result<BufferView> {
    if !labels_fit(labels_of(text_bytes(q.label))) {
        Err(DnsError::LabelTooLong)
    } else {
        v.write_step(question_wire(q))
    }
}

impl DnsQuestion {
    /// A question of class IN.
    pub fn new(label: String, q_type: QueryType) -> (r: Self)
        ensures
            r@ == (QuestionView { label: label@, q_type, q_class: DnsClass::IN }),
    {
        Self { label, q_type, q_class: DnsClass::IN }
    }

    /// Reads one question at the cursor.
    fn read_one(dbuf: &mut DnsBytePacketBuffer) -> (r: Result<DnsQuestion>)
        requires
            old(dbuf).inv(),
        ensures
            final(dbuf).inv(),
            same_data(old(dbuf)@, final(dbuf)@),
            match question_step(old(dbuf)@) {
                Ok((q, next)) => r matches Ok(x) && x@ == q && final(dbuf)@ == next,
                Err(e) => r == Err::<DnsQuestion, DnsError>(e),
            },
    {
        let query = match dbuf.read_label() {
            Ok(x) => x,
            Err(e) => return Err(e),
        };
        let q_type = match dbuf.read_u16() {
            Ok(x) => QueryType::from(x),
            Err(e) => return Err(e),
        };
        let q_class = match dbuf.read_u16() {
            Ok(x) => DnsClass::from(x),
            Err(e) => return Err(e),
        };
        Ok(DnsQuestion { label: query, q_type, q_class })
    }

    /// Reads `entries` questions in a row at the cursor.
    pub fn read(dbuf: &mut DnsBytePacketBuffer, entries: usize) -> (r: Result<Vec<DnsQuestion>>)
        requires
            old(dbuf).inv(),
        ensures
            final(dbuf).inv(),
            same_data(old(dbuf)@, final(dbuf)@),
            match questions_step(old(dbuf)@, entries as nat) {
                Ok((qs, next)) => r matches Ok(xs) && xs@.map_values(|x: DnsQuestion| x@) == qs
                    && final(dbuf)@ == next,
                Err(e) => r == Err::<Vec<DnsQuestion>, DnsError>(e),
            },
    {
        let mut questions: Vec<DnsQuestion> = Vec::new();
        let mut k: usize = 0;
        let ghost start = dbuf@;
        assert(after_done(Seq::<QuestionView>::empty(), questions_step(start, entries as nat))
            =~= questions_step(start, entries as nat)) by {
            match questions_step(start, entries as nat) {
                Ok((qs, _)) => {
                    assert(Seq::<QuestionView>::empty() + qs =~= qs);
                },
                Err(_) => {},
            }
        }
        while k < entries
            invariant
                dbuf.inv(),
                k <= entries,
                start == old(dbuf)@,
                same_data(start, dbuf@),
                after_done(
                    questions@.map_values(|x: DnsQuestion| x@),
                    questions_step(dbuf@, (entries - k) as nat),
                ) == questions_step(start, entries as nat),
            decreases entries - k,
        {
            let ghost before = questions@.map_values(|x: DnsQuestion| x@);
            let q = match DnsQuestion::read_one(dbuf) {
                Ok(x) => x,
                Err(e) => return Err(e),
            };
            let ghost qv = q@;
            questions.push(q);
            proof {
                assert(questions@.map_values(|x: DnsQuestion| x@) =~= before.push(qv));
                match questions_step(dbuf@, (entries - k - 1) as nat) {
                    Ok((qs, _)) => {
                        assert(before + (seq![qv] + qs) =~= before.push(qv) + qs);
                    },
                    Err(_) => {},
                }
            }
            k = k + 1;
        }
        proof {
            let done = questions@.map_values(|x: DnsQuestion| x@);
            assert(done + Seq::<QuestionView>::empty() =~= done);
        }
        Ok(questions)
    }

    /// Writes the question at the cursor: name, type, then class IN; on
    /// failure the buffer stays as it was.
    pub fn write(&self, buffer: &mut DnsBytePacketBuffer) -> (r: Result<()>)
        requires
            old(buffer).inv(),
        ensures
            final(buffer).inv(),
            write_outcome(r, old(buffer)@, final(buffer)@, question_write_step(old(buffer)@, self@)),
    {
        let name = self.label.as_str();
        let bytes = name.as_bytes();
        if !labels_within_limit(bytes) {
            return Err(DnsError::LabelTooLong);
        }
        proof {
            lemma_wire_len(bytes@, 0, seq![]);
        }
        if buffer.get_pos() > CAPACITY - 6 || bytes.len() > CAPACITY - 6 - buffer.get_pos() {
            return Err(DnsError::BufferFull);
        }
        let ghost v = buffer@;
        let ghost w = name_wire(bytes@);
        let _ = buffer.write_label(name);
        write_u16_ok(buffer, u16::from(self.q_type));
        proof {
            lemma_put_put(v, w, u16_bytes(type_code(self.q_type)));
        }
        write_u16_ok(buffer, 1);
        proof {
            lemma_put_put(v, w + u16_bytes(type_code(self.q_type)), u16_bytes(1));
        }
        Ok(())
    }
}

/// An IPv4 address as its four octets, most significant first.
#[derive(Debug, Clone, Copy, PartialEq, Eq, Structural)]
pub struct Ipv4Address(pub u8, pub u8, pub u8, pub u8);

impl Ipv4Address {
    pub fn new(a: u8, b: u8, c: u8, d: u8) -> (r: Self)
        ensures
            r == Ipv4Address(a, b, c, d),
    {
        Ipv4Address(a, b, c, d)
    }

    /// The four octets, most significant first.
    pub fn octets(&self) -> (r: [u8; 4])
        ensures
            r@ == seq![self.0, self.1, self.2, self.3],
    {
        let r = [self.0, self.1, self.2, self.3];
        assert(r@ =~= seq![self.0, self.1, self.2, self.3]);
        r
    }
}

/// The payload of a record: an address for address records; for any other
/// type only its code is kept.
#[derive(Debug, Clone, Copy, PartialEq, Eq, Structural)]
pub enum RecordData {
    IPADDR(Ipv4Address),
    UNKNOWN(u16),
}

impl Default for RecordData {
    fn default() -> (r: Self)
        ensures
            r == RecordData::UNKNOWN(0),
    {
        Self::UNKNOWN(0u16)
    }
}

/// A resource record as mathematical values.
pub struct RecordView {
    pub label: Seq<char>,
    pub r_type: QueryType,
    pub r_class: DnsClass,
    pub ttl: u32,
    pub rd_len: u16,
    pub r_data: RecordData,
}

/// One resource record of an answer, authority or additional section.
#[derive(Debug)]
pub struct DnsRecord {
    /// the name the record is about, dot-joined
    pub label: String,
    /// 2bytes record type
    pub r_type: QueryType,
    /// 2bytes record class
    pub r_class: DnsClass,
    /// 4bytes Time-to-Live
    pub ttl: u32,
    /// 2bytes length of record type specific data
    pub rd_len: u16,
    /// record data
    pub r_data: RecordData,
}

impl View for DnsRecord {
    type V = RecordView;

    open spec fn view(&self) -> RecordView {
        RecordView {
            label: self.label@,
            r_type: self.r_type,
            r_class: self.r_class,
            ttl: self.ttl,
            rd_len: self.rd_len,
            r_data: self.r_data,
        }
    }
}

impl Default for DnsRecord {
    fn default() -> (r: Self)
        ensures
            r@ == (RecordView {
                label: Seq::empty(),
                r_type: QueryType::A,
                r_class: DnsClass::IN,
                ttl: 0,
                rd_len: 0,
                r_data: RecordData::UNKNOWN(0),
            }),
    {
        DnsRecord {
            label: String::new(),
            r_type: QueryType::A,
            r_class: DnsClass::IN,
            ttl: 0,
            rd_len: 0,
            r_data: RecordData::UNKNOWN(0),
        }
    }
}

/// Reading the payload of a record of type `t` whose declared length is
/// `rd_len`: an address record takes four bytes; any other type keeps only
/// its code, and its `rd_len` bytes are passed over so that the next record
/// is read from its own start.
pub open spec fn record_data_step(t: QueryType, rd_len: u16, v: BufferView) -> Result<
    (RecordData, BufferView),
> {
    if t == QueryType::A {
        if v.pos + 4 <= v.valid_len {
            let p = v.pos as int;
            Ok(
                (
                    RecordData::IPADDR(
                        Ipv4Address(v.bytes[p], v.bytes[p + 1], v.bytes[p + 2], v.bytes[p + 3]),
                    ),
                    v.with_pos(v.pos + 4),
                ),
            )
        } else {
            Err(DnsError::BufferExhausted)
        }
    } else if v.pos + rd_len <= v.valid_len {
        Ok((RecordData::UNKNOWN(type_code(t)), v.with_pos((v.pos + rd_len) as nat)))
    } else {
        Err(DnsError::BufferExhausted)
    }
}

/// Reading a record at the cursor: name, type, class, time to live, data
/// length, then the payload.
pub open spec fn record_step(v: BufferView) -> Result<(RecordView, BufferView)> {
    match v.read_name_step() {
        Ok((ls, v1)) => match v1.read_u16_step() {
            Ok((t, v2)) => match v2.read_u16_step() {
                Ok((c, v3)) => match v3.read_u32_step() {
                    Ok((ttl, v4)) => match v4.read_u16_step() {
                        Ok((len, v5)) => match record_data_step(type_of(t), len, v5) {
                            Ok((d, v6)) => Ok(
                                (
                                    RecordView {
                                        label: name_text(ls),
                                        r_type: type_of(t),
                                        r_class: class_of(c),
                                        ttl,
                                        rd_len: len,
                                        r_data: d,
                                    },
                                    v6,
                                ),
                            ),
                            Err(e) => Err(e),
                        },
                        Err(e) => Err(e),
                    },
                    Err(e) => Err(e),
                },
                Err(e) => Err(e),
            },
            Err(e) => Err(e),
        },
        Err(e) => Err(e),
    }
}

/// Reading `n` records in a row.
pub open spec fn records_step(v: BufferView, n: nat) -> Result<(Seq<RecordView>, BufferView)>
    decreases n,
{
    if n == 0 {
        Ok((seq![], v))
    } else {
        match record_step(v) {
            Ok((r, v1)) => match records_step(v1, (n - 1) as nat) {
                Ok((rs, v2)) => Ok((seq![r] + rs, v2)),
                Err(e) => Err(e),
            },
            Err(e) => Err(e),
        }
    }
}

/// The wire form of a record. An address record is written with type A,
/// class IN and data length 4; a record of any other type is not written.
pub open spec fn record_wire(r: RecordView) -> Seq<u8> {
    match r.r_data {
        RecordData::IPADDR(a) => name_wire(text_bytes(r.label)) + u16_bytes(1) + u16_bytes(1)
            + u32_bytes(r.ttl) + u16_bytes(4) + seq![a.0, a.1, a.2, a.3],
        RecordData::UNKNOWN(_) => seq![],
    }
}

/// The labels that writing a record writes all fit a length byte.
pub open spec fn record_labels_fit(r: RecordView) -> bool {
    r.r_data is IPADDR ==> labels_fit(labels_of(text_bytes(r.label)))
}

/// Writing a record at the cursor: a label that is too long fails first,
/// then a record that does not fit.
pub open spec fn record_write_step(v: BufferView, r: RecordView) -> Result<BufferView> {
    if !record_labels_fit(r) {
        Err(DnsError::LabelTooLong)
    } else {
        v.write_step(record_wire(r))
    }
}

impl RecordData {
    /// Reads the payload of a record of type `r_type` with declared length
    /// `rd_len`, as `record_data_step` says; on failure the buffer stays.
    fn from(r_type: &QueryType, rd_len: u16, dbuf: &mut DnsBytePacketBuffer) -> (r: Result<Self>)
        requires
            old(dbuf).inv(),
        ensures
            final(dbuf).inv(),
            outcome(r, old(dbuf)@, final(dbuf)@, record_data_step(*r_type, rd_len, old(dbuf)@)),
    {
        match *r_type {
            QueryType::A => {
                let p = dbuf.get_pos();
                if !(p <= CAPACITY - 4 && p + 4 <= dbuf.valid_len()) {
                    return Err(DnsError::BufferExhausted);
                }
                let a = read_u8_ok(dbuf);
                let b = read_u8_ok(dbuf);
                let c = read_u8_ok(dbuf);
                let d = read_u8_ok(dbuf);
                Ok(Self::IPADDR(Ipv4Address::new(a, b, c, d)))
            },
            _ => {
                match dbuf.step(rd_len as usize) {
                    Ok(()) => Ok(Self::UNKNOWN(u16::from(*r_type))),
                    Err(e) => Err(e),
                }
            },
        }
    }
}

impl DnsRecord {
    /// Reads one record at the cursor.
    fn read_one(dbuf: &mut DnsBytePacketBuffer) -> (r: Result<DnsRecord>)
        requires
            old(dbuf).inv(),
        ensures
            final(dbuf).inv(),
            same_data(old(dbuf)@, final(dbuf)@),
            match record_step(old(dbuf)@) {
                Ok((x, next)) => r matches Ok(y) && y@ == x && final(dbuf)@ == next,
                Err(e) => r == Err::<DnsRecord, DnsError>(e),
            },
    {
        let query = match dbuf.read_label() {
            Ok(x) => x,
            Err(e) => return Err(e),
        };
        let r_type = match dbuf.read_u16() {
            Ok(x) => QueryType::from(x),
            Err(e) => return Err(e),
        };
        let r_class = match dbuf.read_u16() {
            Ok(x) => DnsClass::from(x),
            Err(e) => return Err(e),
        };
        let ttl = match dbuf.read_u32() {
            Ok(x) => x,
            Err(e) => return Err(e),
        };
        let rd_len = match dbuf.read_u16() {
            Ok(x) => x,
            Err(e) => return Err(e),
        };
        let r_data = match RecordData::from(&r_type, rd_len, dbuf) {
            Ok(x) => x,
            Err(e) => return Err(e),
        };
        Ok(DnsRecord { label: query, r_type, r_class, ttl, rd_len, r_data })
    }

    /// Reads `entries` records in a row at the cursor.
    pub fn read(dbuf: &mut DnsBytePacketBuffer, entries: usize) -> (r: Result<Vec<DnsRecord>>)
        requires
            old(dbuf).inv(),
        ensures
            final(dbuf).inv(),
            same_data(old(dbuf)@, final(dbuf)@),
            match records_step(old(dbuf)@, entries as nat) {
                Ok((rs, next)) => r matches Ok(xs) && xs@.map_values(|x: DnsRecord| x@) == rs
                    && final(dbuf)@ == next,
                Err(e) => r == Err::<Vec<DnsRecord>, DnsError>(e),
            },
    {
        let mut records: Vec<DnsRecord> = Vec::new();
        let mut k: usize = 0;
        let ghost start = dbuf@;
        assert(after_done(Seq::<RecordView>::empty(), records_step(start, entries as nat))
            =~= records_step(start, entries as nat)) by {
            match records_step(start, entries as nat) {
                Ok((rs, _)) => {
                    assert(Seq::<RecordView>::empty() + rs =~= rs);
                },
                Err(_) => {},
            }
        }
        while k < entries
            invariant
                dbuf.inv(),
                k <= entries,
                start == old(dbuf)@,
                same_data(start, dbuf@),
                after_done(
                    records@.map_values(|x: DnsRecord| x@),
                    records_step(dbuf@, (entries - k) as nat),
                ) == records_step(start, entries as nat),
            decreases entries - k,
        {
            let ghost before = records@.map_values(|x: DnsRecord| x@);
            let rec = match DnsRecord::read_one(dbuf) {
                Ok(x) => x,
                Err(e) => return Err(e),
            };
            let ghost rv = rec@;
            records.push(rec);
            proof {
                assert(records@.map_values(|x: DnsRecord| x@) =~= before.push(rv));
                match records_step(dbuf@, (entries - k - 1) as nat) {
                    Ok((rs, _)) => {
                        assert(before + (seq![rv] + rs) =~= before.push(rv) + rs);
                    },
                    Err(_) => {},
                }
            }
            k = k + 1;
        }
        proof {
            let done = records@.map_values(|x: DnsRecord| x@);
            assert(done + Seq::<RecordView>::empty() =~= done);
        }
        Ok(records)
    }

    /// Writes an address record at the cursor and returns how many bytes it
    /// took; a record of any other type is passed over and takes none. On
    /// failure the buffer stays as it was.
    pub fn write(&self, buffer: &mut DnsBytePacketBuffer) -> (r: Result<usize>)
        requires
            old(buffer).inv(),
        ensures
            final(buffer).inv(),
            match record_write_step(old(buffer)@, self@) {
                Ok(next) => r == Ok::<usize, DnsError>(record_wire(self@).len() as usize)
                    && final(buffer)@ == next,
                Err(e) => r == Err::<usize, DnsError>(e) && final(buffer)@ == old(buffer)@,
            },
    {
        let ghost v = buffer@;
        match self.r_data {
            RecordData::IPADDR(addr) => {
                let name = self.label.as_str();
                let bytes = name.as_bytes();
                if !labels_within_limit(bytes) {
                    return Err(DnsError::LabelTooLong);
                }
                proof {
                    lemma_wire_len(bytes@, 0, seq![]);
                }
                if buffer.get_pos() > CAPACITY - 16 || bytes.len() > CAPACITY - 16
                    - buffer.get_pos() {
                    return Err(DnsError::BufferFull);
                }
                let ghost w0 = name_wire(bytes@);
                let _ = buffer.write_label(name);
                write_u16_ok(buffer, u16::from(QueryType::A));
                proof {
                    lemma_put_put(v, w0, u16_bytes(1));
                }
                let ghost w1 = w0 + u16_bytes(1);
                write_u16_ok(buffer, 1);
                proof {
                    lemma_put_put(v, w1, u16_bytes(1));
                }
                let ghost w2 = w1 + u16_bytes(1);
                write_u32_ok(buffer, self.ttl);
                proof {
                    lemma_put_put(v, w2, u32_bytes(self.ttl));
                }
                let ghost w3 = w2 + u32_bytes(self.ttl);
                write_u16_ok(buffer, 4);
                proof {
                    lemma_put_put(v, w3, u16_bytes(4));
                }
                let ghost w4 = w3 + u16_bytes(4);
                let octets = addr.octets();
                write_u8_ok(buffer, octets[0]);
                proof {
                    lemma_put_put(v, w4, seq![addr.0]);
                }
                let ghost w5 = w4 + seq![addr.0];
                write_u8_ok(buffer, octets[1]);
                proof {
                    lemma_put_put(v, w5, seq![addr.1]);
                }
                let ghost w6 = w5 + seq![addr.1];
                write_u8_ok(buffer, octets[2]);
                proof {
                    lemma_put_put(v, w6, seq![addr.2]);
                }
                let ghost w7 = w6 + seq![addr.2];
                write_u8_ok(buffer, octets[3]);
                proof {
                    lemma_put_put(v, w7, seq![addr.3]);
                    assert(w7 + seq![addr.3] =~= record_wire(self@));
                }
                Ok(bytes.len() + 16)
            },
            RecordData::UNKNOWN(_) => {
                assert(v.put(seq![]).bytes =~= v.bytes);
                Ok(0)
            },
        }
    }
}

/// Writes a 32-bit integer where it is known to fit.
fn write_u32_ok(buffer: &mut DnsBytePacketBuffer, v: u32)
    requires
        old(buffer).inv(),
        old(buffer)@.pos + 4 <= CAPACITY,
    ensures
        final(buffer).inv(),
        final(buffer)@ == old(buffer)@.put(u32_bytes(v)),
{
    let _ = buffer.write_u32(v);
}

/// The wire form of questions in a row.
pub open spec fn questions_wire(qs: Seq<QuestionView>) -> Seq<u8>
    decreases qs.len(),
{
    if qs.len() == 0 {
        seq![]
    } else {
        question_wire(qs[0]) + questions_wire(qs.drop_first())
    }
}

/// The wire form of records in a row; records that are not address records
/// add nothing.
pub open spec fn records_wire(rs: Seq<RecordView>) -> Seq<u8>
    decreases rs.len(),
{
    if rs.len() == 0 {
        seq![]
    } else {
        record_wire(rs[0]) + records_wire(rs.drop_first())
    }
}

/// Every label that writing these questions writes fits a length byte.
pub open spec fn questions_fit(qs: Seq<QuestionView>) -> bool {
    forall|i: int| 0 <= i < qs.len() ==> labels_fit(labels_of(text_bytes(#[trigger] qs[i].label)))
}

/// Every label that writing these records writes fits a length byte.
pub open spec fn records_fit(rs: Seq<RecordView>) -> bool {
    forall|i: int| 0 <= i < rs.len() ==> record_labels_fit(#[trigger] rs[i])
}

proof fn lemma_questions_wire_step(qs: Seq<QuestionView>, k: int)
    requires
        0 <= k < qs.len(),
    ensures
        questions_wire(qs.subrange(k, qs.len() as int)) == question_wire(qs[k]) + questions_wire(
            qs.subrange(k + 1, qs.len() as int),
        ),
{
    assert(qs.subrange(k, qs.len() as int).drop_first() =~= qs.subrange(k + 1, qs.len() as int));
}

proof fn lemma_records_wire_step(rs: Seq<RecordView>, k: int)
    requires
        0 <= k < rs.len(),
    ensures
        records_wire(rs.subrange(k, rs.len() as int)) == record_wire(rs[k]) + records_wire(
            rs.subrange(k + 1, rs.len() as int),
        ),
{
    assert(rs.subrange(k, rs.len() as int).drop_first() =~= rs.subrange(k + 1, rs.len() as int));
}

/// Whether every label that writing these questions writes fits.
fn questions_within_limit(qs: &Vec<DnsQuestion>) -> (r: bool)
    ensures
        r == questions_fit(qs@.map_values(|x: DnsQuestion| x@)),
{
    let ghost view = qs@.map_values(|x: DnsQuestion| x@);
    let mut k: usize = 0;
    while k < qs.len()
        invariant
            k <= qs.len(),
            view == qs@.map_values(|x: DnsQuestion| x@),
            forall|i: int| 0 <= i < k ==> labels_fit(labels_of(text_bytes(#[trigger] view[i].label))),
        decreases qs.len() - k,
    {
        assert(view[k as int] == qs@[k as int]@);
        let name = qs[k].label.as_str();
        let bytes = name.as_bytes();
        assert(bytes@ == text_bytes(view[k as int].label));
        if !labels_within_limit(bytes) {
            assert(!labels_fit(labels_of(text_bytes(view[k as int].label))));
            return false;
        }
        k = k + 1;
    }
    true
}

/// Whether every label that writing these records writes fits.
fn records_within_limit(rs: &Vec<DnsRecord>) -> (r: bool)
    ensures
        r == records_fit(rs@.map_values(|x: DnsRecord| x@)),
{
    let ghost view = rs@.map_values(|x: DnsRecord| x@);
    let mut k: usize = 0;
    while k < rs.len()
        invariant
            k <= rs.len(),
            view == rs@.map_values(|x: DnsRecord| x@),
            forall|i: int| 0 <= i < k ==> record_labels_fit(#[trigger] view[i]),
        decreases rs.len() - k,
    {
        assert(view[k as int] == rs@[k as int]@);
        if let RecordData::IPADDR(_) = rs[k].r_data {
            let name = rs[k].label.as_str();
            let bytes = name.as_bytes();
            assert(bytes@ == text_bytes(view[k as int].label));
            if !labels_within_limit(bytes) {
                assert(!record_labels_fit(view[k as int]));
                return false;
            }
        }
        k = k + 1;
    }
    true
}

/// Writes questions in a row, their labels known to fit.
fn write_questions(qs: &Vec<DnsQuestion>, buffer: &mut DnsBytePacketBuffer) -> (r: Result<()>)
    requires
        old(buffer).inv(),
        questions_fit(qs@.map_values(|x: DnsQuestion| x@)),
    ensures
        final(buffer).inv(),
        final(buffer)@.valid_len == old(buffer)@.valid_len,
        match old(buffer)@.write_step(questions_wire(qs@.map_values(|x: DnsQuestion| x@))) {
            Ok(next) => r == Ok::<(), DnsError>(()) && final(buffer)@ == next,
            Err(e) => r == Err::<(), DnsError>(e),
        },
{
    let ghost view = qs@.map_values(|x: DnsQuestion| x@);
    let ghost v = buffer@;
    let ghost mut done: Seq<u8> = seq![];
    let mut k: usize = 0;
    assert(view.subrange(0, view.len() as int) =~= view);
    assert(v.put(done).bytes =~= v.bytes);
    while k < qs.len()
        invariant
            buffer.inv(),
            v.wf(),
            v == old(buffer)@,
            k <= qs.len(),
            view == qs@.map_values(|x: DnsQuestion| x@),
            questions_fit(view),
            buffer@ == v.put(done),
            v.pos + done.len() <= CAPACITY,
            done + questions_wire(view.subrange(k as int, view.len() as int)) == questions_wire(view),
        decreases qs.len() - k,
    {
        proof {
            lemma_questions_wire_step(view, k as int);
            assert(view[k as int] == qs@[k as int]@);
        }
        let ghost piece = question_wire(view[k as int]);
        match qs[k].write(buffer) {
            Ok(()) => {},
            Err(e) => {
                return Err(e);
            },
        }
        proof {
            lemma_put_put(v, done, piece);
            assert(done + (piece + questions_wire(view.subrange(k + 1, view.len() as int)))
                =~= (done + piece) + questions_wire(view.subrange(k + 1, view.len() as int)));
            done = done + piece;
        }
        k = k + 1;
    }
    proof {
        assert(view.subrange(k as int, view.len() as int) =~= Seq::<QuestionView>::empty());
        assert(done + Seq::<u8>::empty() =~= done);
    }
    Ok(())
}

/// Writes records in a row, their labels known to fit.
fn write_records(rs: &Vec<DnsRecord>, buffer: &mut DnsBytePacketBuffer) -> (r: Result<()>)
    requires
        old(buffer).inv(),
        records_fit(rs@.map_values(|x: DnsRecord| x@)),
    ensures
        final(buffer).inv(),
        final(buffer)@.valid_len == old(buffer)@.valid_len,
        match old(buffer)@.write_step(records_wire(rs@.map_values(|x: DnsRecord| x@))) {
            Ok(next) => r == Ok::<(), DnsError>(()) && final(buffer)@ == next,
            Err(e) => r == Err::<(), DnsError>(e),
        },
{
    let ghost view = rs@.map_values(|x: DnsRecord| x@);
    let ghost v = buffer@;
    let ghost mut done: Seq<u8> = seq![];
    let mut k: usize = 0;
    assert(view.subrange(0, view.len() as int) =~= view);
    assert(v.put(done).bytes =~= v.bytes);
    while k < rs.len()
        invariant
            buffer.inv(),
            v.wf(),
            v == old(buffer)@,
            k <= rs.len(),
            view == rs@.map_values(|x: DnsRecord| x@),
            records_fit(view),
            buffer@ == v.put(done),
            v.pos + done.len() <= CAPACITY,
            done + records_wire(view.subrange(k as int, view.len() as int)) == records_wire(view),
        decreases rs.len() - k,
    {
        proof {
            lemma_records_wire_step(view, k as int);
            assert(view[k as int] == rs@[k as int]@);
        }
        let ghost piece = record_wire(view[k as int]);
        match rs[k].write(buffer) {
            Ok(_) => {},
            Err(e) => {
                return Err(e);
            },
        }
        proof {
            lemma_put_put(v, done, piece);
            assert(done + (piece + records_wire(view.subrange(k + 1, view.len() as int)))
                =~= (done + piece) + records_wire(view.subrange(k + 1, view.len() as int)));
            done = done + piece;
        }
        k = k + 1;
    }
    proof {
        assert(view.subrange(k as int, view.len() as int) =~= Seq::<RecordView>::empty());
        assert(done + Seq::<u8>::empty() =~= done);
    }
    Ok(())
}

/// A message as mathematical values.
pub struct PacketView {
    pub header: DnsHeader,
    pub questions: Seq<QuestionView>,
    pub answers: Seq<RecordView>,
    pub authorities: Seq<RecordView>,
    pub additionals: Seq<RecordView>,
}

/// A whole message: a header, then questions, answers, authority records and
/// additional records, each section in order.
#[derive(Debug)]
pub struct DnsPacket {
    pub header: DnsHeader,
    pub questions: Vec<DnsQuestion>,
    pub answers: Vec<DnsRecord>,
    pub authorities: Vec<DnsRecord>,
    pub additionals: Vec<DnsRecord>,
}

impl View for DnsPacket {
    type V = PacketView;

    open spec fn view(&self) -> PacketView {
        PacketView {
            header: self.header,
            questions: self.questions@.map_values(|x: DnsQuestion| x@),
            answers: self.answers@.map_values(|x: DnsRecord| x@),
            authorities: self.authorities@.map_values(|x: DnsRecord| x@),
            additionals: self.additionals@.map_values(|x: DnsRecord| x@),
        }
    }
}

/// A message with an empty header and no entries.
pub open spec fn empty_packet() -> PacketView {
    PacketView {
        header: empty_header(),
        questions: seq![],
        answers: seq![],
        authorities: seq![],
        additionals: seq![],
    }
}

/// The answers of a message whose header says `h`: read only when the
/// message is a response that counts some.
pub open spec fn answers_step(h: DnsHeader, v: BufferView) -> Result<(Seq<RecordView>, BufferView)> {
    if h.qr && h.an_count > 0 {
        records_step(v, h.an_count as nat)
    } else {
        Ok((seq![], v))
    }
}

/// Reading the three record sections of a message whose header says `h`:
/// answers (for a response), authority records, additional records.
pub open spec fn record_sections_step(h: DnsHeader, v: BufferView) -> Result<
    ((Seq<RecordView>, Seq<RecordView>, Seq<RecordView>), BufferView),
> {
    match answers_step(h, v) {
        Ok((ans, v1)) => match records_step(v1, h.ns_count as nat) {
            Ok((auth, v2)) => match records_step(v2, h.ar_count as nat) {
                Ok((add, v3)) => Ok(((ans, auth, add), v3)),
                Err(e) => Err(e),
            },
            Err(e) => Err(e),
        },
        Err(e) => Err(e),
    }
}

/// Reading a message at the cursor: the header, then as many questions as
/// it counts, then the answers (for a response), authority records and
/// additional records, each into its own section.
pub open spec fn packet_step(v: BufferView) -> Result<(PacketView, BufferView)> {
    match header_step(v) {
        Ok((h, v1)) => match questions_step(v1, h.qd_count as nat) {
            Ok((qs, v2)) => match record_sections_step(h, v2) {
                Ok(((ans, auth, add), v3)) => Ok(
                    (
                        PacketView {
                            header: h,
                            questions: qs,
                            answers: ans,
                            authorities: auth,
                            additionals: add,
                        },
                        v3,
                    ),
                ),
                Err(e) => Err(e),
            },
            Err(e) => Err(e),
        },
        Err(e) => Err(e),
    }
}

/// A message whose header counts are those of its sections.
pub open spec fn with_counts(p: PacketView) -> PacketView {
    PacketView {
        header: DnsHeader {
            qd_count: p.questions.len() as u16,
            an_count: p.answers.len() as u16,
            ns_count: p.authorities.len() as u16,
            ar_count: p.additionals.len() as u16,
            ..p.header
        },
        ..p
    }
}

/// The wire form of a message: its header with the counts of its sections,
/// then each section in order.
pub open spec fn packet_wire(p: PacketView) -> Seq<u8> {
    header_wire(with_counts(p).header) + questions_wire(p.questions) + records_wire(p.answers)
        + records_wire(p.authorities) + records_wire(p.additionals)
}

/// Every label that writing the message writes fits a length byte.
pub open spec fn packet_fits(p: PacketView) -> bool {
    &&& questions_fit(p.questions)
    &&& records_fit(p.answers)
    &&& records_fit(p.authorities)
    &&& records_fit(p.additionals)
}

/// Writing a message at the cursor: a label that is too long fails first,
/// then a message that does not fit.
pub open spec fn packet_write_step(v: BufferView, p: PacketView) -> Result<BufferView> {
    if !packet_fits(p) {
        Err(DnsError::LabelTooLong)
    } else {
        v.write_step(packet_wire(p))
    }
}

impl Default for DnsPacket {
    fn default() -> (r: Self)
        ensures
            r@ == empty_packet(),
    {
        DnsPacket::new()
    }
}

impl DnsPacket {
    /// A message with an empty header and no entries.
    pub fn new() -> (r: Self)
        ensures
            r@ == empty_packet(),
    {
        let r = Self {
            header: DnsHeader::new(),
            questions: Vec::new(),
            answers: Vec::new(),
            authorities: Vec::new(),
            additionals: Vec::new(),
        };
        assert(r@.questions =~= Seq::<QuestionView>::empty());
        assert(r@.answers =~= Seq::<RecordView>::empty());
        assert(r@.authorities =~= Seq::<RecordView>::empty());
        assert(r@.additionals =~= Seq::<RecordView>::empty());
        r
    }

    /// Reads a message at the cursor, as `packet_step` says.
    pub fn from_buffer(dbuf: &mut DnsBytePacketBuffer) -> (r: Result<Self>)
        requires
            old(dbuf).inv(),
        ensures
            final(dbuf).inv(),
            same_data(old(dbuf)@, final(dbuf)@),
            match packet_step(old(dbuf)@) {
                Ok((p, next)) => r matches Ok(x) && x@ == p && final(dbuf)@ == next,
                Err(e) => r == Err::<DnsPacket, DnsError>(e),
            },
    {
        let header = match DnsHeader::read(dbuf) {
            Ok(h) => h,
            Err(e) => return Err(e),
        };
        let questions = match DnsQuestion::read(dbuf, header.qd_count as usize) {
            Ok(x) => x,
            Err(e) => return Err(e),
        };
        let ghost v2 = dbuf@;
        let answers = if header.qr && header.an_count > 0 {
            match DnsRecord::read(dbuf, header.an_count as usize) {
                Ok(x) => x,
                Err(e) => return Err(e),
            }
        } else {
            let none: Vec<DnsRecord> = Vec::new();
            assert(none@.map_values(|x: DnsRecord| x@) =~= Seq::<RecordView>::empty());
            none
        };
        let authorities = match DnsRecord::read(dbuf, header.ns_count as usize) {
            Ok(x) => x,
            Err(e) => return Err(e),
        };
        let additionals = match DnsRecord::read(dbuf, header.ar_count as usize) {
            Ok(x) => x,
            Err(e) => return Err(e),
        };
        Ok(DnsPacket { header, questions, answers, authorities, additionals })
    }

    /// Sets the header counts from the sections, then writes the header and
    /// each section in order. Records that are not address records are passed
    /// over, yet counted: a message that holds some then counts more records
    /// than it carries. On failure the buffer may hold part of the message.
    pub fn write(&mut self, buffer: &mut DnsBytePacketBuffer) -> (r: Result<()>)
        requires
            old(buffer).inv(),
        ensures
            final(self)@ == with_counts(old(self)@),
            final(buffer).inv(),
            final(buffer)@.valid_len == old(buffer)@.valid_len,
            match packet_write_step(old(buffer)@, old(self)@) {
                Ok(next) => r == Ok::<(), DnsError>(()) && final(buffer)@ == next,
                Err(e) => r == Err::<(), DnsError>(e),
            },
    {
        self.header.qd_count = self.questions.len() as u16;
        self.header.an_count = self.answers.len() as u16;
        self.header.ns_count = self.authorities.len() as u16;
        self.header.ar_count = self.additionals.len() as u16;
        let ghost p = self@;
        if !(questions_within_limit(&self.questions) && records_within_limit(&self.answers)
            && records_within_limit(&self.authorities) && records_within_limit(&self.additionals)) {
            return Err(DnsError::LabelTooLong);
        }
        let ghost v = buffer@;
        let ghost w0 = header_wire(self.header);
        let ghost w1 = questions_wire(p.questions);
        let ghost w2 = records_wire(p.answers);
        let ghost w3 = records_wire(p.authorities);
        let ghost w4 = records_wire(p.additionals);
        assert(packet_wire(p) == w0 + w1 + w2 + w3 + w4);
        match self.header.write(buffer) {
            Ok(()) => {},
            Err(e) => return Err(e),
        }
        match write_questions(&self.questions, buffer) {
            Ok(()) => {},
            Err(e) => return Err(e),
        }
        proof {
            lemma_put_put(v, w0, w1);
        }
        match write_records(&self.answers, buffer) {
            Ok(()) => {},
            Err(e) => return Err(e),
        }
        proof {
            lemma_put_put(v, w0 + w1, w2);
        }
        match write_records(&self.authorities, buffer) {
            Ok(()) => {},
            Err(e) => return Err(e),
        }
        proof {
            lemma_put_put(v, w0 + w1 + w2, w3);
        }
        match write_records(&self.additionals, buffer) {
            Ok(()) => {},
            Err(e) => return Err(e),
        }
        proof {
            lemma_put_put(v, w0 + w1 + w2 + w3, w4);
        }
        Ok(())
    }
}

} // verus!
