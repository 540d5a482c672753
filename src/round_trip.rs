//! What reading gives back of what writing wrote: the decoder inverts the
//! encoder on the messages that the encoder can write in full.
use vstd::prelude::*;

use crate::dns::{
    class_of, flags_hi, flags_lo, header_of, header_step, header_wire,
    packet_step, packet_wire, packet_write_step, question_step, question_wire, questions_step,
    questions_wire, rcode_of, rcode_value, record_data_step, record_step, record_wire,
    records_step, records_wire, text_bytes, type_code, type_of, with_counts, DnsClass, DnsHeader,
    PacketView, QueryType, QuestionView, RecordData, RecordView, answers_step, record_sections_step, Ipv4Address,
    lemma_type_code_round_trip, record_labels_fit, records_fit, packet_fits,
};
use crate::names::{
    labels_fit, labels_nonempty, labels_of, lemma_scan_wire, name_text, name_wire,
};
use crate::parser::{be16, be32, u16_bytes, u32_bytes, BufferView, CAPACITY};
use crate::DnsError;

verus! {

/// `w` stands in the bytes of `r` from `at` on, all of it within the data.
pub open spec fn holds_at(r: BufferView, at: int, w: Seq<u8>) -> bool {
    &&& 0 <= at
    &&& at + w.len() <= r.valid_len
    &&& r.bytes.subrange(at, at + w.len()) == w
}

proof fn lemma_holds_split(r: BufferView, at: int, a: Seq<u8>, b: Seq<u8>)
    requires
        r.wf(),
        holds_at(r, at, a + b),
    ensures
        holds_at(r, at, a),
        holds_at(r, at + a.len(), b),
{
    let s = r.bytes.subrange(at, at + (a + b).len());
    assert(r.bytes.subrange(at, at + a.len()) =~= s.subrange(0, a.len() as int));
    assert((a + b).subrange(0, a.len() as int) =~= a);
    assert(r.bytes.subrange(at + a.len(), at + a.len() + b.len()) =~= s.subrange(
        a.len() as int,
        (a + b).len() as int,
    ));
    assert((a + b).subrange(a.len() as int, (a + b).len() as int) =~= b);
}

proof fn lemma_read_u16_at(r: BufferView, at: int, x: u16)
    requires
        r.wf(),
        holds_at(r, at, u16_bytes(x)),
    ensures
        r.with_pos(at as nat).read_u16_step() == Ok::<(u16, BufferView), DnsError>(
            (x, r.with_pos((at + 2) as nat)),
        ),
{
    assert(r.bytes[at] == u16_bytes(x)[0]);
    assert(r.bytes[at + 1] == u16_bytes(x)[1]);
    assert(be16((x / 0x100) as u8, (x % 0x100) as u8) == x);
}

proof fn lemma_read_u32_at(r: BufferView, at: int, x: u32)
    requires
        r.wf(),
        holds_at(r, at, u32_bytes(x)),
    ensures
        r.with_pos(at as nat).read_u32_step() == Ok::<(u32, BufferView), DnsError>(
            (x, r.with_pos((at + 4) as nat)),
        ),
{
    assert(r.bytes[at] == u32_bytes(x)[0]);
    assert(r.bytes[at + 1] == u32_bytes(x)[1]);
    assert(r.bytes[at + 2] == u32_bytes(x)[2]);
    assert(r.bytes[at + 3] == u32_bytes(x)[3]);
    assert(be32(
        (x / 0x100_0000) as u8,
        (x / 0x1_0000 % 0x100) as u8,
        (x / 0x100 % 0x100) as u8,
        (x % 0x100) as u8,
    ) == x);
}

/// A name written without compression, no label empty and none too long,
/// reads back as its labels and moves the reader past it.
proof fn lemma_read_name_at(r: BufferView, at: int, b: Seq<u8>)
    requires
        r.wf(),
        holds_at(r, at, name_wire(b)),
        labels_fit(labels_of(b)),
        labels_nonempty(labels_of(b)),
    ensures
        r.with_pos(at as nat).read_name_step() == Ok::<(Seq<Seq<u8>>, BufferView), DnsError>(
            (labels_of(b), r.with_pos((at + name_wire(b).len()) as nat)),
        ),
{
    let w = name_wire(b);
    let data = r.with_pos(at as nat).data();
    assert(data.subrange(at, at + w.len()) =~= r.bytes.subrange(at, at + w.len()));
    lemma_scan_wire(labels_of(b), data, at, 0);
}

proof fn lemma_flags_hi(qr: bool, op: u8, aa: bool, tc: bool, rd: bool)
    by (bit_vector)
    requires
        op < 16,
    ensures
        ({
            let a = (if rd { 1u8 } else { 0u8 }) | (if tc { 2u8 } else { 0u8 }) | (if aa {
                4u8
            } else {
                0u8
            }) | ((op & 0x0F) << 3u8) | (if qr { 0x80u8 } else { 0u8 });
            &&& ((a >> 7u8) > 0) == qr
            &&& ((a >> 3u8) & 0x0F) == op
            &&& (((a >> 2u8) & 1) > 0) == aa
            &&& (((a >> 1u8) & 1) > 0) == tc
            &&& ((a & 1) > 0) == rd
        }),
{
}

proof fn lemma_flags_lo(v: u8, ra: bool)
    by (bit_vector)
    requires
        v < 16,
    ensures
        ({
            let c = v | (if ra { 0x80u8 } else { 0u8 });
            &&& ((c >> 7u8) > 0) == ra
            &&& (c & 0x0F) == v
        }),
{
}

/// A header whose opcode fits four bits reads back from its wire form as it
/// was, but for the reserved bit, which is never written and reads as off.
pub proof fn lemma_header_round_trip(h: DnsHeader)
    requires
        h.op_code < 16,
    ensures
        header_of(header_wire(h)) == (DnsHeader { z: false, ..h }),
{
    let w = header_wire(h);
    lemma_flags_hi(h.qr, h.op_code, h.aa, h.tc, h.rd);
    lemma_flags_lo(rcode_value(h.r_code), h.ra);
    assert(w[2] == flags_hi(h));
    assert(w[3] == flags_lo(h));
    assert(rcode_of(rcode_value(h.r_code)) == h.r_code);
    assert(be16(w[0], w[1]) == h.id) by {
        assert(be16((h.id / 0x100) as u8, (h.id % 0x100) as u8) == h.id);
    }
    assert(be16(w[4], w[5]) == h.qd_count) by {
        assert(be16((h.qd_count / 0x100) as u8, (h.qd_count % 0x100) as u8) == h.qd_count);
    }
    assert(be16(w[6], w[7]) == h.an_count) by {
        assert(be16((h.an_count / 0x100) as u8, (h.an_count % 0x100) as u8) == h.an_count);
    }
    assert(be16(w[8], w[9]) == h.ns_count) by {
        assert(be16((h.ns_count / 0x100) as u8, (h.ns_count % 0x100) as u8) == h.ns_count);
    }
    assert(be16(w[10], w[11]) == h.ar_count) by {
        assert(be16((h.ar_count / 0x100) as u8, (h.ar_count % 0x100) as u8) == h.ar_count);
    }
}

/// A question that can be written in full and read back: no label empty or
/// too long.
pub open spec fn question_supported(q: QuestionView) -> bool {
    &&& labels_fit(labels_of(text_bytes(q.label)))
    &&& labels_nonempty(labels_of(text_bytes(q.label)))
}

/// An address record whose name can be written in full.
pub open spec fn record_supported(x: RecordView) -> bool {
    &&& x.r_data is IPADDR
    &&& labels_fit(labels_of(text_bytes(x.label)))
    &&& labels_nonempty(labels_of(text_bytes(x.label)))
}

/// What reading gives back of a written question: the name with each label
/// lower-cased, the type that its code reads as, class IN.
pub open spec fn decoded_question(q: QuestionView) -> QuestionView {
    QuestionView {
        label: name_text(labels_of(text_bytes(q.label))),
        q_type: type_of(type_code(q.q_type)),
        q_class: DnsClass::IN,
    }
}

/// What reading gives back of a written address record: the name with each
/// label lower-cased, type A, class IN, the same time to live, data length 4
/// and the same address.
pub open spec fn decoded_record(x: RecordView) -> RecordView {
    RecordView {
        label: name_text(labels_of(text_bytes(x.label))),
        r_type: QueryType::A,
        r_class: DnsClass::IN,
        ttl: x.ttl,
        rd_len: 4,
        r_data: x.r_data,
    }
}

proof fn lemma_read_question(r: BufferView, at: int, q: QuestionView)
    requires
        r.wf(),
        holds_at(r, at, question_wire(q)),
        question_supported(q),
    ensures
        question_step(r.with_pos(at as nat)) == Ok::<(QuestionView, BufferView), DnsError>(
            (decoded_question(q), r.with_pos((at + question_wire(q).len()) as nat)),
        ),
{
    let b = text_bytes(q.label);
    let n = name_wire(b);
    let t = u16_bytes(type_code(q.q_type));
    lemma_holds_split(r, at, n + t, u16_bytes(1));
    lemma_holds_split(r, at, n, t);
    lemma_read_name_at(r, at, b);
    lemma_read_u16_at(r, at + n.len(), type_code(q.q_type));
    lemma_read_u16_at(r, at + n.len() + 2, 1);
    assert(r.with_pos((at + n.len()) as nat).with_pos((at + n.len() + 2) as nat) == r.with_pos(
        (at + n.len() + 2) as nat,
    ));
    assert(class_of(1) == DnsClass::IN);
}

proof fn lemma_read_record(r: BufferView, at: int, x: RecordView)
    requires
        r.wf(),
        holds_at(r, at, record_wire(x)),
        record_supported(x),
    ensures
        record_step(r.with_pos(at as nat)) == Ok::<(RecordView, BufferView), DnsError>(
            (decoded_record(x), r.with_pos((at + record_wire(x).len()) as nat)),
        ),
{
    let a = x.r_data->IPADDR_0;
    let b = text_bytes(x.label);
    let n = name_wire(b);
    let octets = seq![a.0, a.1, a.2, a.3];
    let w1 = n + u16_bytes(1);
    let w2 = w1 + u16_bytes(1);
    let w3 = w2 + u32_bytes(x.ttl);
    let w4 = w3 + u16_bytes(4);
    assert(record_wire(x) == w4 + octets);
    lemma_holds_split(r, at, w4, octets);
    lemma_holds_split(r, at, w3, u16_bytes(4));
    lemma_holds_split(r, at, w2, u32_bytes(x.ttl));
    lemma_holds_split(r, at, w1, u16_bytes(1));
    lemma_holds_split(r, at, n, u16_bytes(1));
    lemma_read_name_at(r, at, b);
    let p = at + n.len();
    lemma_read_u16_at(r, p, 1);
    lemma_read_u16_at(r, p + 2, 1);
    lemma_read_u32_at(r, p + 4, x.ttl);
    lemma_read_u16_at(r, p + 8, 4);
    let v5 = r.with_pos((p + 10) as nat);
    assert(r.bytes[p + 10] == a.0 && r.bytes[p + 11] == a.1 && r.bytes[p + 12] == a.2
        && r.bytes[p + 13] == a.3) by {
        assert(r.bytes.subrange(p + 10, p + 14) == octets);
        assert(r.bytes[p + 10] == r.bytes.subrange(p + 10, p + 14)[0]);
        assert(r.bytes[p + 11] == r.bytes.subrange(p + 10, p + 14)[1]);
        assert(r.bytes[p + 12] == r.bytes.subrange(p + 10, p + 14)[2]);
        assert(r.bytes[p + 13] == r.bytes.subrange(p + 10, p + 14)[3]);
    }
    assert(record_data_step(type_of(1), 4, v5) == Ok::<(RecordData, BufferView), DnsError>(
        (RecordData::IPADDR(Ipv4Address(a.0, a.1, a.2, a.3)), r.with_pos((p + 14) as nat)),
    ));
    assert(x.r_data == RecordData::IPADDR(Ipv4Address(a.0, a.1, a.2, a.3)));
    assert(class_of(1) == DnsClass::IN);
}

/// Bytes written at the cursor stand there for a reader of the same bytes
/// that starts at the same place.
proof fn lemma_written_at(v: BufferView, wire: Seq<u8>, r: BufferView)
    requires
        v.wf(),
        v.pos + wire.len() <= CAPACITY,
        r.wf(),
        r.bytes == v.put(wire).bytes,
        v.pos + wire.len() <= r.valid_len,
    ensures
        holds_at(r, v.pos as int, wire),
{
    assert(r.bytes.subrange(v.pos as int, (v.pos + wire.len()) as int) =~= wire);
}

proof fn lemma_read_questions(r: BufferView, at: int, qs: Seq<QuestionView>)
    requires
        r.wf(),
        holds_at(r, at, questions_wire(qs)),
        forall|i: int| 0 <= i < qs.len() ==> question_supported(#[trigger] qs[i]),
    ensures
        questions_step(r.with_pos(at as nat), qs.len()) == Ok::<
            (Seq<QuestionView>, BufferView),
            DnsError,
        >(
            (
                qs.map_values(|q: QuestionView| decoded_question(q)),
                r.with_pos((at + questions_wire(qs).len()) as nat),
            ),
        ),
        questions_wire(qs).len() >= qs.len(),
    decreases qs.len(),
{
    if qs.len() == 0 {
        assert(qs.map_values(|q: QuestionView| decoded_question(q)) =~= Seq::<QuestionView>::empty());
    } else {
        let rest = qs.drop_first();
        let w = question_wire(qs[0]);
        lemma_holds_split(r, at, w, questions_wire(rest));
        lemma_read_question(r, at, qs[0]);
        assert forall|i: int| 0 <= i < rest.len() implies question_supported(#[trigger] rest[i]) by {
            assert(rest[i] == qs[i + 1]);
        }
        lemma_read_questions(r, at + w.len(), rest);
        assert(r.with_pos((at + w.len()) as nat).with_pos(
            (at + w.len() + questions_wire(rest).len()) as nat,
        ) == r.with_pos((at + w.len() + questions_wire(rest).len()) as nat));
        assert(seq![decoded_question(qs[0])] + rest.map_values(|q: QuestionView| decoded_question(q))
            =~= qs.map_values(|q: QuestionView| decoded_question(q)));
        assert((qs.len() - 1) as nat == rest.len());
    }
}

proof fn lemma_read_records(r: BufferView, at: int, rs: Seq<RecordView>)
    requires
        r.wf(),
        holds_at(r, at, records_wire(rs)),
        forall|i: int| 0 <= i < rs.len() ==> record_supported(#[trigger] rs[i]),
    ensures
        records_step(r.with_pos(at as nat), rs.len()) == Ok::<
            (Seq<RecordView>, BufferView),
            DnsError,
        >(
            (
                rs.map_values(|x: RecordView| decoded_record(x)),
                r.with_pos((at + records_wire(rs).len()) as nat),
            ),
        ),
        records_wire(rs).len() >= rs.len(),
    decreases rs.len(),
{
    if rs.len() == 0 {
        assert(rs.map_values(|x: RecordView| decoded_record(x)) =~= Seq::<RecordView>::empty());
    } else {
        let rest = rs.drop_first();
        let w = record_wire(rs[0]);
        lemma_holds_split(r, at, w, records_wire(rest));
        lemma_read_record(r, at, rs[0]);
        assert forall|i: int| 0 <= i < rest.len() implies record_supported(#[trigger] rest[i]) by {
            assert(rest[i] == rs[i + 1]);
        }
        lemma_read_records(r, at + w.len(), rest);
        assert(r.with_pos((at + w.len()) as nat).with_pos(
            (at + w.len() + records_wire(rest).len()) as nat,
        ) == r.with_pos((at + w.len() + records_wire(rest).len()) as nat));
        assert(seq![decoded_record(rs[0])] + rest.map_values(|x: RecordView| decoded_record(x))
            =~= rs.map_values(|x: RecordView| decoded_record(x)));
        assert((rs.len() - 1) as nat == rest.len());
    }
}

/// A message that can be written in full and read back: opcode within four
/// bits, answers only in a response, every question supported, and only
/// address records whose names can be written.
pub open spec fn packet_supported(p: PacketView) -> bool {
    &&& p.header.op_code < 16
    &&& (p.header.qr || p.answers.len() == 0)
    &&& forall|i: int| 0 <= i < p.questions.len() ==> question_supported(#[trigger] p.questions[i])
    &&& forall|i: int| 0 <= i < p.answers.len() ==> record_supported(#[trigger] p.answers[i])
    &&& forall|i: int|
        0 <= i < p.authorities.len() ==> record_supported(#[trigger] p.authorities[i])
    &&& forall|i: int|
        0 <= i < p.additionals.len() ==> record_supported(#[trigger] p.additionals[i])
}

/// What reading gives back of a written message: the header with the counts
/// of the sections and the reserved bit off, and each entry as
/// `decoded_question` and `decoded_record` say.
pub open spec fn decoded_packet(p: PacketView) -> PacketView {
    PacketView {
        header: DnsHeader { z: false, ..with_counts(p).header },
        questions: p.questions.map_values(|q: QuestionView| decoded_question(q)),
        answers: p.answers.map_values(|x: RecordView| decoded_record(x)),
        authorities: p.authorities.map_values(|x: RecordView| decoded_record(x)),
        additionals: p.additionals.map_values(|x: RecordView| decoded_record(x)),
    }
}

/// A message written by `DnsPacket::write` reads back through
/// `DnsPacket::from_buffer`, from where it was written, with the same id,
/// flags, opcode and response code, the same question type codes, the same
/// record times to live and addresses, and every name with its labels
/// lower-cased; the reader ends just past the written bytes.
#[verifier::rlimit(40)]
pub proof fn lemma_packet_round_trip(p: PacketView, v: BufferView, w: BufferView, r: BufferView)
    requires
        packet_supported(p),
        v.wf(),
        packet_write_step(v, p) == Ok::<BufferView, DnsError>(w),
        r.wf(),
        r.bytes == w.bytes,
        r.pos == v.pos,
        w.pos <= r.valid_len,
    ensures
        packet_step(r) == Ok::<(PacketView, BufferView), DnsError>(
            (decoded_packet(p), r.with_pos(w.pos)),
        ),
        decoded_packet(p).header == (DnsHeader {
            z: false,
            qd_count: p.questions.len() as u16,
            an_count: p.answers.len() as u16,
            ns_count: p.authorities.len() as u16,
            ar_count: p.additionals.len() as u16,
            ..p.header
        }),
        forall|i: int|
            0 <= i < p.questions.len() ==> type_code(#[trigger] decoded_packet(p).questions[i].q_type)
                == type_code(p.questions[i].q_type) && decoded_packet(p).questions[i].label == name_text(
                labels_of(text_bytes(p.questions[i].label)),
            ),
        forall|i: int|
            0 <= i < p.answers.len() ==> #[trigger] decoded_packet(p).answers[i].ttl
                == p.answers[i].ttl && decoded_packet(p).answers[i].r_data == p.answers[i].r_data
                && decoded_packet(p).answers[i].label == name_text(
                labels_of(text_bytes(p.answers[i].label)),
            ),
{
    let wire = packet_wire(p);
    let h = with_counts(p).header;
    let w0 = header_wire(h);
    let w1 = questions_wire(p.questions);
    let w2 = records_wire(p.answers);
    let w3 = records_wire(p.authorities);
    let w4 = records_wire(p.additionals);
    let at = v.pos as int;
    assert(wire == w0 + w1 + w2 + w3 + w4);
    lemma_written_at(v, wire, r);
    assert(w0 + w1 + (w2 + w3 + w4) =~= wire);
    lemma_holds_split(r, at, w0 + w1, w2 + w3 + w4);
    lemma_holds_split(r, at, w0, w1);
    // the header
    lemma_header_round_trip(h);
    let hd = DnsHeader { z: false, ..h };
    assert(r.bytes.subrange(at, at + 12) == w0);
    assert(header_step(r) == Ok::<(DnsHeader, BufferView), DnsError>(
        (hd, r.with_pos((at + 12) as nat)),
    ));
    // the sections
    let a1 = at + 12;
    let a2 = a1 + w1.len();
    lemma_read_questions(r, a1, p.questions);
    assert(hd.qd_count as nat == p.questions.len());
    assert(r.with_pos(a1 as nat).with_pos(a2 as nat) == r.with_pos(a2 as nat));
    lemma_read_record_sections(r, a2, p, hd);
    assert forall|i: int| 0 <= i < p.questions.len() implies type_code(
        #[trigger] decoded_packet(p).questions[i].q_type,
    ) == type_code(p.questions[i].q_type) by {
        lemma_type_code_round_trip(type_code(p.questions[i].q_type), p.questions[i].q_type);
    }
    assert(a2 + (w2 + w3 + w4).len() == w.pos);
}

proof fn lemma_read_record_sections(r: BufferView, at: int, p: PacketView, h: DnsHeader)
    requires
        r.wf(),
        packet_supported(p),
        h == (DnsHeader { z: false, ..with_counts(p).header }),
        holds_at(
            r,
            at,
            records_wire(p.answers) + records_wire(p.authorities) + records_wire(p.additionals),
        ),
        at + records_wire(p.answers).len() + records_wire(p.authorities).len() + records_wire(
            p.additionals,
        ).len() <= CAPACITY,
    ensures
        record_sections_step(h, r.with_pos(at as nat)) == Ok::<
            ((Seq<RecordView>, Seq<RecordView>, Seq<RecordView>), BufferView),
            DnsError,
        >(
            (
                (
                    p.answers.map_values(|x: RecordView| decoded_record(x)),
                    p.authorities.map_values(|x: RecordView| decoded_record(x)),
                    p.additionals.map_values(|x: RecordView| decoded_record(x)),
                ),
                r.with_pos(
                    (at + records_wire(p.answers).len() + records_wire(p.authorities).len()
                        + records_wire(p.additionals).len()) as nat,
                ),
            ),
        ),
{
    let w2 = records_wire(p.answers);
    let w3 = records_wire(p.authorities);
    let w4 = records_wire(p.additionals);
    lemma_holds_split(r, at, w2 + w3, w4);
    lemma_holds_split(r, at, w2, w3);
    let a3 = at + w2.len();
    let a4 = a3 + w3.len();
    lemma_read_records(r, at, p.answers);
    lemma_read_records(r, a3, p.authorities);
    lemma_read_records(r, a4, p.additionals);
    assert(h.an_count as nat == p.answers.len());
    assert(h.ns_count as nat == p.authorities.len());
    assert(h.ar_count as nat == p.additionals.len());
    if p.answers.len() == 0 {
        assert(w2 =~= Seq::<u8>::empty());
        assert(p.answers.map_values(|x: RecordView| decoded_record(x)) =~= Seq::<
            RecordView,
        >::empty());
    }
    assert(answers_step(h, r.with_pos(at as nat)) == Ok::<
        (Seq<RecordView>, BufferView),
        DnsError,
    >((p.answers.map_values(|x: RecordView| decoded_record(x)), r.with_pos(a3 as nat))));
    assert(r.with_pos(a3 as nat).with_pos(a4 as nat) == r.with_pos(a4 as nat));
    assert(r.with_pos(a4 as nat).with_pos((a4 + w4.len()) as nat) == r.with_pos(
        (a4 + w4.len()) as nat,
    ));
}

/// A record that is not an address record adds no bytes to the wire form of
/// its section and no label to check.
pub proof fn lemma_other_record_adds_nothing(rs: Seq<RecordView>, i: int, x: RecordView)
    requires
        x.r_data is UNKNOWN,
        0 <= i <= rs.len(),
    ensures
        records_wire(rs.insert(i, x)) == records_wire(rs),
        records_fit(rs.insert(i, x)) == records_fit(rs),
    decreases i,
{
    let rs2 = rs.insert(i, x);
    if i == 0 {
        assert(rs2.drop_first() =~= rs);
    } else {
        assert(rs2.drop_first() =~= rs.drop_first().insert(i - 1, x));
        lemma_other_record_adds_nothing(rs.drop_first(), i - 1, x);
        assert(rs2[0] == rs[0]);
    }
    assert(records_fit(rs2) == records_fit(rs)) by {
        if records_fit(rs) {
            assert forall|k: int| 0 <= k < rs2.len() implies record_labels_fit(#[trigger] rs2[k]) by {
                if k > i {
                    assert(rs2[k] == rs[k - 1]);
                } else if k < i {
                    assert(rs2[k] == rs[k]);
                }
            }
        }
        if records_fit(rs2) {
            assert forall|k: int| 0 <= k < rs.len() implies record_labels_fit(#[trigger] rs[k]) by {
                if k >= i {
                    assert(rs2[k + 1] == rs[k]);
                } else {
                    assert(rs2[k] == rs[k]);
                }
            }
        }
    }
}

/// A message with one more answer that is not an address record writes the
/// same bytes after its header, and fails or succeeds just as the message
/// without it does: such a record is omitted and never makes the write fail.
pub proof fn lemma_other_answer_is_omitted(p: PacketView, i: int, x: RecordView, v: BufferView)
    requires
        x.r_data is UNKNOWN,
        0 <= i <= p.answers.len(),
    ensures
        ({
            let p2 = PacketView { answers: p.answers.insert(i, x), ..p };
            &&& packet_wire(p2) == header_wire(with_counts(p2).header) + packet_wire(p).subrange(
                12,
                packet_wire(p).len() as int,
            )
            &&& packet_wire(p2).len() == packet_wire(p).len()
            &&& (packet_write_step(v, p2) is Ok <==> packet_write_step(v, p) is Ok)
        }),
{
    let p2 = PacketView { answers: p.answers.insert(i, x), ..p };
    lemma_other_record_adds_nothing(p.answers, i, x);
    let tail = questions_wire(p.questions) + records_wire(p.answers) + records_wire(p.authorities)
        + records_wire(p.additionals);
    let w = packet_wire(p);
    assert(header_wire(with_counts(p).header).len() == 12);
    assert(w =~= header_wire(with_counts(p).header) + tail);
    assert(w.subrange(12, w.len() as int) =~= tail);
    assert(packet_wire(p2) =~= header_wire(with_counts(p2).header) + tail);
    assert(packet_fits(p2) == packet_fits(p));
}

} // verus!
