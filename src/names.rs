//! Domain names: how a name splits into labels, the wire form of a label
//! sequence, and how a name is found in a message that may use compression
//! pointers.
use vstd::prelude::*;

use crate::{DnsError, Result};

verus! {

/// The longest label that the six bits of a length byte can give.
pub const MAX_LABEL_LEN: usize = 63;

/// How many compression pointers a name may follow.
pub const MAX_JUMPS: usize = 5;

/// The byte that separates labels in the text of a name.
pub const DOT: u8 = 0x2E;

/// The labels of `b` from index `i` on, where the label under way already
/// holds `cur`.
pub open spec fn split_from(b: Seq<u8>, i: int, cur: Seq<u8>) -> Seq<Seq<u8>>
    decreases b.len() - i,
{
    if i >= b.len() {
        seq![cur]
    } else if b[i] == DOT {
        seq![cur] + split_from(b, i + 1, seq![])
    } else {
        split_from(b, i + 1, cur.push(b[i]))
    }
}

/// The dot-separated labels of a name given as bytes ("" has one empty label).
pub open spec fn labels_of(b: Seq<u8>) -> Seq<Seq<u8>> {
    split_from(b, 0, seq![])
}

/// No label is longer than a length byte can say.
pub open spec fn labels_fit(ls: Seq<Seq<u8>>) -> bool {
    forall|k: int| 0 <= k < ls.len() ==> #[trigger] ls[k].len() <= MAX_LABEL_LEN
}

/// Each label with its length in front, then a zero byte.
pub open spec fn labels_wire(ls: Seq<Seq<u8>>) -> Seq<u8>
    decreases ls.len(),
{
    if ls.len() == 0 {
        seq![0u8]
    } else {
        seq![ls[0].len() as u8] + ls[0] + labels_wire(ls.drop_first())
    }
}

/// The wire form of a name given as bytes, without compression.
pub open spec fn name_wire(b: Seq<u8>) -> Seq<u8> {
    labels_wire(labels_of(b))
}

/// Where a compression pointer made of bytes `b1` (top two bits set) and `b2`
/// leads.
pub open spec fn pointer_target(b1: u8, b2: u8) -> int {
    (b1 - 0xC0) * 0x100 + b2
}

/// The labels of the name that starts at `at` in `data`, having followed
/// `jumps` pointers so far, and where the reader resumes: just past the first
/// pointer met, or past the terminating zero when no pointer is met.
pub open spec fn scan_name(data: Seq<u8>, at: int, jumps: int) -> Result<(Seq<Seq<u8>>, int)>
    decreases MAX_JUMPS + 1 - jumps, data.len() - at,
{
    if jumps > MAX_JUMPS {
        Err(DnsError::CompressionLoop)
    } else if at < 0 || at >= data.len() {
        Err(DnsError::OutOfRange)
    } else if data[at] >= 0xC0 {
        // the top two bits are set: a pointer
        if at + 1 >= data.len() {
            Err(DnsError::OutOfRange)
        } else {
            match scan_name(data, pointer_target(data[at], data[at + 1]), jumps + 1) {
                Ok((ls, _)) => Ok((ls, at + 2)),
                Err(e) => Err(e),
            }
        }
    } else if data[at] == 0 {
        Ok((seq![], at + 1))
    } else if at + 1 + data[at] > data.len() {
        Err(DnsError::OutOfRange)
    } else {
        match scan_name(data, at + 1 + data[at], jumps) {
            Ok((ls, end)) => Ok((seq![data.subrange(at + 1, at + 1 + data[at])] + ls, end)),
            Err(e) => Err(e),
        }
    }
}

/// What scanning from a later point gives, once `prefix` has been read and
/// the reader's resume point is `end` if a pointer was already followed.
pub open spec fn resume(
    prefix: Seq<Seq<u8>>,
    jumped: bool,
    end: int,
    rest: Result<(Seq<Seq<u8>>, int)>,
) -> Result<(Seq<Seq<u8>>, int)> {
    match rest {
        Ok((ls, e)) => Ok((prefix + ls, if jumped { end } else { e })),
        Err(x) => Err(x),
    }
}

/// The text that `String::from_utf8_lossy` makes of some bytes.
pub uninterp spec fn lossy_of(b: Seq<u8>) -> Seq<char>;

/// The text that `str::to_lowercase` makes of a text.
pub uninterp spec fn lower_of(s: Seq<char>) -> Seq<char>;

/// A label read from the wire, as text and lower-cased.
pub open spec fn label_text(l: Seq<u8>) -> Seq<char> {
    if l.len() == 0 {
        seq![]
    } else {
        lower_of(lossy_of(l))
    }
}

/// Texts joined with a dot between each two.
pub open spec fn join_dot(parts: Seq<Seq<char>>) -> Seq<char>
    decreases parts.len(),
{
    if parts.len() == 0 {
        seq![]
    } else if parts.len() == 1 {
        parts[0]
    } else {
        join_dot(parts.drop_last()) + seq!['.'] + parts.last()
    }
}

/// The text of a name read from the wire as labels.
pub open spec fn name_text(ls: Seq<Seq<u8>>) -> Seq<char> {
    join_dot(ls.map_values(|l: Seq<u8>| label_text(l)))
}

/// Relies on `String::from_utf8_lossy`: the text of some bytes, the result
/// depending on the bytes alone.
#[verifier::external_body]
fn lossy_text(b: &[u8]) -> (r: String)
    ensures
        r@ == lossy_of(b@),
{
    String::from_utf8_lossy(b).into_owned()
}

/// Relies on `str::to_lowercase`: the lower-case form of a text, the result
/// depending on the text alone.
#[verifier::external_body]
fn lowercase(s: &str) -> (r: String)
    ensures
        r@ == lower_of(s@),
{
    s.to_lowercase()
}

/// The text of a name from its labels as read from the wire: each label
/// lower-cased, and a dot between each two.
pub fn labels_to_text(parts: &Vec<Vec<u8>>) -> (r: String)
    ensures
        r@ == name_text(parts.deep_view()),
{
    let ghost texts = parts.deep_view().map_values(|l: Seq<u8>| label_text(l));
    let mut out = String::new();
    let mut k: usize = 0;
    while k < parts.len()
        invariant
            k <= parts.len(),
            texts == parts.deep_view().map_values(|l: Seq<u8>| label_text(l)),
            out@ == join_dot(texts.subrange(0, k as int)),
        decreases parts.len() - k,
    {
        let ghost before = out@;
        if k > 0 {
            out.append(".");
            proof {
                reveal_strlit(".");
            }
            assert(out@ =~= before + seq!['.']);
        }
        let ghost joined = out@;
        if parts[k].len() > 0 {
            let raw = lossy_text(parts[k].as_slice());
            let low = lowercase(raw.as_str());
            out.append(low.as_str());
        } else {
            assert(out@ =~= joined + Seq::<char>::empty());
        }
        proof {
            let next = texts.subrange(0, k + 1);
            assert(next.drop_last() =~= texts.subrange(0, k as int));
            assert(parts.deep_view()[k as int] == parts[k as int]@);
            assert(texts[k as int] == label_text(parts[k as int]@));
            assert(next.last() == texts[k as int]);
            if k == 0 {
                assert(out@ =~= next[0]);
            } else {
                assert(out@ =~= join_dot(next.drop_last()) + seq!['.'] + next.last());
            }
        }
        k = k + 1;
    }
    assert(texts.subrange(0, parts.len() as int) =~= texts);
    out
}

/// Whether every dot-separated label of `name` fits a length byte.
pub fn labels_within_limit(name: &[u8]) -> (r: bool)
    ensures
        r == labels_fit(labels_of(name@)),
{
    let n = name.len();
    let mut i: usize = 0;
    let mut start: usize = 0;
    let ghost mut done: Seq<Seq<u8>> = seq![];
    assert(name@.subrange(0, 0) =~= Seq::<u8>::empty());
    assert(labels_of(name@) =~= done + labels_of(name@));
    while i < n
        invariant
            n == name@.len(),
            start <= i <= n,
            i - start <= MAX_LABEL_LEN,
            labels_fit(done),
            labels_of(name@) == done + split_from(name@, i as int, name@.subrange(
                start as int,
                i as int,
            )),
        decreases n - i,
    {
        let ghost cur = name@.subrange(start as int, i as int);
        if name[i] == DOT {
            proof {
                let rest = split_from(name@, i + 1, seq![]);
                assert(name@.subrange(i + 1, i + 1) =~= Seq::<u8>::empty());
                assert(done + (seq![cur] + rest) =~= done.push(cur) + rest);
                done = done.push(cur);
            }
            start = i + 1;
        } else {
            assert(cur.push(name[i as int]) =~= name@.subrange(start as int, i + 1));
            if i - start == MAX_LABEL_LEN {
                proof {
                    let next = name@.subrange(start as int, i + 1);
                    lemma_split_first_extends(name@, i + 1, next);
                    let k = done.len() as int;
                    assert(labels_of(name@)[k] == split_from(name@, i + 1, next)[0]);
                }
                return false;
            }
        }
        i = i + 1;
    }
    proof {
        let cur = name@.subrange(start as int, i as int);
        assert(labels_of(name@) =~= done.push(cur));
        assert forall|k: int| 0 <= k < labels_of(name@).len() implies #[trigger] labels_of(
            name@,
        )[k].len() <= MAX_LABEL_LEN by {
            if k < done.len() {
                assert(labels_of(name@)[k] == done[k]);
            }
        }
    }
    true
}

/// The first label found from `i` on extends the label under way.
pub proof fn lemma_split_first_extends(b: Seq<u8>, i: int, cur: Seq<u8>)
    ensures
        split_from(b, i, cur).len() >= 1,
        split_from(b, i, cur)[0].len() >= cur.len(),
    decreases b.len() - i,
{
    if i >= b.len() {
    } else if b[i] == DOT {
    } else {
        lemma_split_first_extends(b, i + 1, cur.push(b[i]));
    }
}

/// The wire form of a name is two bytes longer than its text.
pub proof fn lemma_wire_len(b: Seq<u8>, i: int, cur: Seq<u8>)
    requires
        0 <= i <= b.len(),
    ensures
        labels_wire(split_from(b, i, cur)).len() == b.len() - i + cur.len() + 2,
    decreases b.len() - i,
{
    if i >= b.len() {
        lemma_wire_cons(cur, seq![]);
    } else if b[i] == DOT {
        lemma_wire_len(b, i + 1, seq![]);
        lemma_wire_cons(cur, split_from(b, i + 1, seq![]));
    } else {
        lemma_wire_len(b, i + 1, cur.push(b[i]));
    }
}

/// The wire form of a label sequence that starts with `l`.
pub proof fn lemma_wire_cons(l: Seq<u8>, rest: Seq<Seq<u8>>)
    ensures
        labels_wire(seq![l] + rest) == seq![l.len() as u8] + l + labels_wire(rest),
{
    assert((seq![l] + rest).drop_first() =~= rest);
}

/// No label is empty.
pub open spec fn labels_nonempty(ls: Seq<Seq<u8>>) -> bool {
    forall|k: int| 0 <= k < ls.len() ==> #[trigger] ls[k].len() > 0
}

/// Scanning the wire form of labels, none empty and none too long, gives
/// them back and resumes just past the wire form.
pub proof fn lemma_scan_wire(ls: Seq<Seq<u8>>, data: Seq<u8>, at: int, jumps: int)
    requires
        0 <= jumps <= MAX_JUMPS,
        labels_fit(ls),
        labels_nonempty(ls),
        0 <= at,
        at + labels_wire(ls).len() <= data.len(),
        data.subrange(at, at + labels_wire(ls).len()) == labels_wire(ls),
    ensures
        scan_name(data, at, jumps) == Ok::<(Seq<Seq<u8>>, int), DnsError>(
            (ls, at + labels_wire(ls).len()),
        ),
    decreases ls.len(),
{
    let w = labels_wire(ls);
    assert(data[at] == w[0]);
    if ls.len() == 0 {
        assert(ls =~= Seq::<Seq<u8>>::empty());
    } else {
        let l = ls[0];
        let rest = ls.drop_first();
        let n = l.len() as int;
        let wr = labels_wire(rest);
        assert(w == seq![l.len() as u8] + l + wr);
        assert(0 < n <= MAX_LABEL_LEN);
        assert(data.subrange(at + 1, at + 1 + n) =~= l) by {
            assert forall|j: int| 0 <= j < n implies data.subrange(at + 1, at + 1 + n)[j] == l[j] by {
                assert(data[at + 1 + j] == w[1 + j]);
            }
        }
        assert(data.subrange(at + 1 + n, at + 1 + n + wr.len()) =~= wr) by {
            assert forall|j: int| 0 <= j < wr.len() implies data.subrange(
                at + 1 + n,
                at + 1 + n + wr.len(),
            )[j] == wr[j] by {
                assert(data[at + 1 + n + j] == w[1 + n + j]);
            }
        }
        assert forall|k: int| 0 <= k < rest.len() implies #[trigger] rest[k].len() <= MAX_LABEL_LEN
            && rest[k].len() > 0 by {
            assert(rest[k] == ls[k + 1]);
        }
        lemma_scan_wire(rest, data, at + 1 + n, jumps);
        assert(seq![l] + rest =~= ls);
        assert(data[at] as int == n);
        assert(w.len() == 1 + n + wr.len());
    }
}

/// From `at` on, `n` compression pointers in a row: `at` holds a pointer,
/// the place it leads to holds the next, and so on.
pub open spec fn pointer_chain(data: Seq<u8>, at: int, n: nat) -> bool
    decreases n,
{
    n == 0 || (0 <= at && at + 1 < data.len() && data[at] >= 0xC0 && pointer_chain(
        data,
        pointer_target(data[at], data[at + 1]),
        (n - 1) as nat,
    ))
}

/// Having followed `jumps` pointers, a chain of pointers long enough to go
/// past the bound fails with `CompressionLoop`.
pub proof fn lemma_pointer_chain_fails(data: Seq<u8>, at: int, jumps: int)
    requires
        0 <= jumps <= MAX_JUMPS + 1,
        pointer_chain(data, at, (MAX_JUMPS + 1 - jumps) as nat),
    ensures
        scan_name(data, at, jumps) == Err::<(Seq<Seq<u8>>, int), DnsError>(
            DnsError::CompressionLoop,
        ),
    decreases MAX_JUMPS + 1 - jumps,
{
    if jumps <= MAX_JUMPS {
        lemma_pointer_chain_fails(data, pointer_target(data[at], data[at + 1]), jumps + 1);
    }
}

/// A pointer that leads to itself is a chain of any length.
pub proof fn lemma_self_pointer_chain(data: Seq<u8>, at: int, n: nat)
    requires
        0 <= at,
        at + 1 < data.len(),
        data[at] >= 0xC0,
        pointer_target(data[at], data[at + 1]) == at,
    ensures
        pointer_chain(data, at, n),
    decreases n,
{
    if n > 0 {
        lemma_self_pointer_chain(data, at, (n - 1) as nat);
    }
}

} // verus!
