//! Fiat-Shamir transcript over merlin. Scalars and points are absorbed in
//! their encodings; each challenge scalar is 64 squeezed bytes reduced into Fr.
//! The transcript is its domain label and the operations performed on it,
//! which determine every challenge.

use vstd::prelude::*;
use vstd::string::StringSliceAdditionalSpecFns;

use crate::algebra::{encodings, fr_from_le_bytes_mod_order, fr_from_le_of};

verus! {

/// One operation on a transcript.
pub enum Absorbed {
    /// A labelled message was absorbed.
    Message(Seq<u8>, Seq<u8>),
    /// A labelled challenge of the given number of bytes was squeezed.
    Challenge(Seq<u8>, nat),
}

/// One recorded operation, as it is replayed on merlin.
pub enum Op {
    /// `append_message(label, message)`.
    Message(&'static [u8], Vec<u8>),
    /// `challenge_bytes(label, _)` into 64 bytes.
    Challenge(&'static [u8]),
}

pub open spec fn op_view(o: Op) -> Absorbed {
    match o {
        Op::Message(l, m) => Absorbed::Message(l@, m@),
        Op::Challenge(l) => Absorbed::Challenge(l@, 64),
    }
}

pub open spec fn ops_view(ops: Seq<Op>) -> Seq<Absorbed> {
    ops.map_values(|o: Op| op_view(o))
}

/// Every recorded message is short enough for merlin.
pub open spec fn ops_fit(ops: Seq<Absorbed>) -> bool {
    forall|i: int|
        0 <= i < ops.len() ==> (#[trigger] ops[i] matches Absorbed::Message(_, m) ==> m.len()
            <= u32::MAX)
}

/// The 64 bytes that merlin squeezes under `label` from a transcript started
/// under `domain` on which `history` was performed.
pub uninterp spec fn squeeze64_of(domain: Seq<u8>, history: Seq<Absorbed>, label: Seq<u8>) -> Seq<
    u8,
>;

/// Relies on merlin's `Transcript` (`new`, `append_message`, `challenge_bytes`):
/// a transcript started under `domain`, on which each recorded operation is
/// performed again in order, gives these 64 bytes under `label`; merlin is
/// deterministic. `append_message` panics on a message over `u32::MAX` bytes.
#[verifier::external_body]
fn squeeze_64(domain: &'static [u8], history: &Vec<Op>, label: &'static [u8]) -> (r: Vec<u8>)
    requires
        ops_fit(ops_view(history@)),
    ensures
        r@ == squeeze64_of(domain@, ops_view(history@), label@),
        r@.len() == 64,
{
    let mut t = merlin::Transcript::new(domain);
    for op in history.iter() {
        match op {
            Op::Message(l, m) => t.append_message(l, m),
            Op::Challenge(l) => t.challenge_bytes(l, &mut [0u8; 64]),
        }
    }
    let mut buf = [0u8; 64];
    t.challenge_bytes(label, &mut buf);
    buf.to_vec()
}

/// The challenge scalar squeezed under `label` from a transcript started under
/// `domain` with `history`.
pub open spec fn challenge_of(domain: Seq<u8>, history: Seq<Absorbed>, label: Seq<u8>) -> Seq<u8> {
    fr_from_le_of(squeeze64_of(domain, history, label))
}

/// The marker absorbed before the items of a list.
pub open spec fn begin_marker() -> Seq<u8> {
    "begin_append_vector".spec_bytes()
}

/// The marker absorbed after the items of a list.
pub open spec fn end_marker() -> Seq<u8> {
    "end_append_vector".spec_bytes()
}

/// The label under which the protocol name is absorbed.
pub open spec fn protocol_name_label() -> Seq<u8> {
    "protocol-name".spec_bytes()
}

/// `after` is `before` followed by the begin marker, one message per item,
/// and the end marker, all under `label`.
pub open spec fn framed_by(
    before: Seq<Absorbed>,
    after: Seq<Absorbed>,
    label: Seq<u8>,
    items: Seq<Vec<u8>>,
) -> bool {
    after == before + list_ops(label, encodings(items))
}

/// The operations that absorb `items` as one list under `label`.
pub open spec fn list_ops(label: Seq<u8>, items: Seq<Seq<u8>>) -> Seq<Absorbed> {
    seq![Absorbed::Message(label, begin_marker())] + Seq::new(
        items.len(),
        |i: int| Absorbed::Message(label, items[i]),
    ) + seq![Absorbed::Message(label, end_marker())]
}

/// `k` challenges of 64 bytes under `label`.
pub open spec fn challenges(label: Seq<u8>, k: nat) -> Seq<Absorbed> {
    Seq::new(k, |i: int| Absorbed::Challenge(label, 64))
}

/// A Fiat-Shamir transcript absorbing scalar and point encodings.
pub trait ProofTranscript {
    /// The domain label the transcript was started under.
    spec fn domain(&self) -> Seq<u8>;

    /// The operations performed on the transcript, in order.
    spec fn absorbed(&self) -> Seq<Absorbed>;

    fn append_protocol_name(&mut self, protocol_name: &'static [u8])
        requires
            ops_fit(old(self).absorbed()),
            protocol_name@.len() <= u32::MAX,
        ensures
            final(self).domain() == old(self).domain(),
            final(self).absorbed() == old(self).absorbed().push(
                Absorbed::Message(protocol_name_label(), protocol_name@),
            ),
            ops_fit(final(self).absorbed()),
    ;

    fn append_scalar(&mut self, label: &'static [u8], scalar: &Vec<u8>)
        requires
            ops_fit(old(self).absorbed()),
            scalar@.len() <= u32::MAX,
        ensures
            final(self).domain() == old(self).domain(),
            final(self).absorbed() == old(self).absorbed().push(
                Absorbed::Message(label@, scalar@),
            ),
            ops_fit(final(self).absorbed()),
    ;

    fn append_scalars(&mut self, label: &'static [u8], scalars: &Vec<Vec<u8>>)
        requires
            ops_fit(old(self).absorbed()),
            forall|i: int| 0 <= i < scalars@.len() ==> #[trigger] scalars@[i]@.len() <= u32::MAX,
        ensures
            final(self).domain() == old(self).domain(),
            framed_by(old(self).absorbed(), final(self).absorbed(), label@, scalars@),
            ops_fit(final(self).absorbed()),
    ;

    fn append_point(&mut self, label: &'static [u8], point: &Vec<u8>)
        requires
            ops_fit(old(self).absorbed()),
            point@.len() <= u32::MAX,
        ensures
            final(self).domain() == old(self).domain(),
            final(self).absorbed() == old(self).absorbed().push(Absorbed::Message(label@, point@)),
            ops_fit(final(self).absorbed()),
    ;

    fn append_points(&mut self, label: &'static [u8], points: &Vec<Vec<u8>>)
        requires
            ops_fit(old(self).absorbed()),
            forall|i: int| 0 <= i < points@.len() ==> #[trigger] points@[i]@.len() <= u32::MAX,
        ensures
            final(self).domain() == old(self).domain(),
            framed_by(old(self).absorbed(), final(self).absorbed(), label@, points@),
            ops_fit(final(self).absorbed()),
    ;

    fn challenge_scalar(&mut self, label: &'static [u8]) -> (r: Vec<u8>)
        requires
            ops_fit(old(self).absorbed()),
        ensures
            final(self).domain() == old(self).domain(),
            final(self).absorbed() == old(self).absorbed().push(Absorbed::Challenge(label@, 64)),
            r@ == challenge_of(old(self).domain(), old(self).absorbed(), label@),
            ops_fit(final(self).absorbed()),
    ;

    fn challenge_vector(&mut self, label: &'static [u8], len: usize) -> (r: Vec<Vec<u8>>)
        requires
            ops_fit(old(self).absorbed()),
        ensures
            final(self).domain() == old(self).domain(),
            final(self).absorbed() == old(self).absorbed() + challenges(label@, len as nat),
            r@.len() == len,
            forall|i: int|
                0 <= i < len ==> (#[trigger] r@[i])@ == challenge_of(
                    old(self).domain(),
                    old(self).absorbed() + challenges(label@, i as nat),
                    label@,
                ),
            ops_fit(final(self).absorbed()),
    ;
}

/// A merlin transcript, kept as its domain label and the record of the
/// operations performed on it.
pub struct FsTranscript {
    domain: &'static [u8],
    history: Vec<Op>,
}

impl FsTranscript {
    /// A transcript under the domain label `label`, with nothing absorbed.
    pub fn new(label: &'static [u8]) -> (r: FsTranscript)
        ensures
            r.domain() == label@,
            r.absorbed() == Seq::<Absorbed>::empty(),
            ops_fit(r.absorbed()),
    {
        let r = FsTranscript { domain: label, history: Vec::new() };
        assert(ops_view(r.history@) =~= Seq::<Absorbed>::empty());
        r
    }

    fn append_message(&mut self, label: &'static [u8], message: &[u8])
        requires
            ops_fit(old(self).absorbed()),
            message@.len() <= u32::MAX,
        ensures
            final(self).domain() == old(self).domain(),
            final(self).absorbed() == old(self).absorbed().push(Absorbed::Message(label@, message@)),
            ops_fit(final(self).absorbed()),
    {
        let ghost before = self.history@;
        let m = slice_to_vec(message);
        self.history.push(Op::Message(label, m));
        assert(ops_view(self.history@) =~= ops_view(before).push(Absorbed::Message(label@, message@)));
    }

    fn append_list(&mut self, label: &'static [u8], items: &Vec<Vec<u8>>)
        requires
            ops_fit(old(self).absorbed()),
            forall|i: int| 0 <= i < items@.len() ==> #[trigger] items@[i]@.len() <= u32::MAX,
        ensures
            final(self).domain() == old(self).domain(),
            framed_by(old(self).absorbed(), final(self).absorbed(), label@, items@),
            ops_fit(final(self).absorbed()),
    {
        let ghost before = self.absorbed();
        let begin = "begin_append_vector".as_bytes();
        let end = "end_append_vector".as_bytes();
        proof {
            reveal_strlit("begin_append_vector");
            reveal_strlit("end_append_vector");
            assert(vstd::string::is_ascii("begin_append_vector"));
            assert(vstd::string::is_ascii("end_append_vector"));
            vstd::string::is_ascii_spec_bytes("begin_append_vector");
            vstd::string::is_ascii_spec_bytes("end_append_vector");
        }
        self.append_message(label, begin);
        let mut i: usize = 0;
        while i < items.len()
            invariant
                i <= items@.len(),
                forall|k: int| 0 <= k < items@.len() ==> #[trigger] items@[k]@.len() <= u32::MAX,
                self.domain() == old(self).domain(),
                ops_fit(self.absorbed()),
                self.absorbed() == before + seq![Absorbed::Message(label@, begin_marker())]
                    + Seq::new(i as nat, |k: int| Absorbed::Message(label@, items@[k]@)),
            decreases items@.len() - i,
        {
            self.append_message(label, items[i].as_slice());
            i = i + 1;
            assert(self.absorbed() =~= before + seq![Absorbed::Message(label@, begin_marker())]
                + Seq::new(i as nat, |k: int| Absorbed::Message(label@, items@[k]@)));
        }
        self.append_message(label, end);
        assert(self.absorbed() =~= before + list_ops(label@, encodings(items@)));
    }
}

/// A copy of `s`.
fn slice_to_vec(s: &[u8]) -> (r: Vec<u8>)
    ensures
        r@ == s@,
{
    let mut r: Vec<u8> = Vec::new();
    let mut i: usize = 0;
    while i < s.len()
        invariant
            i <= s@.len(),
            r@ == s@.subrange(0, i as int),
        decreases s@.len() - i,
    {
        r.push(s[i]);
        i = i + 1;
        assert(r@ =~= s@.subrange(0, i as int));
    }
    assert(r@ =~= s@);
    r
}

impl ProofTranscript for FsTranscript {
    closed spec fn domain(&self) -> Seq<u8> {
        self.domain@
    }

    closed spec fn absorbed(&self) -> Seq<Absorbed> {
        ops_view(self.history@)
    }

    fn append_protocol_name(&mut self, protocol_name: &'static [u8]) {
        self.append_message("protocol-name".as_bytes(), protocol_name);
    }

    fn append_scalar(&mut self, label: &'static [u8], scalar: &Vec<u8>) {
        self.append_message(label, scalar.as_slice());
    }

    fn append_scalars(&mut self, label: &'static [u8], scalars: &Vec<Vec<u8>>) {
        self.append_list(label, scalars);
    }

    fn append_point(&mut self, label: &'static [u8], point: &Vec<u8>) {
        self.append_message(label, point.as_slice());
    }

    fn append_points(&mut self, label: &'static [u8], points: &Vec<Vec<u8>>) {
        self.append_list(label, points);
    }

    fn challenge_scalar(&mut self, label: &'static [u8]) -> (r: Vec<u8>) {
        let c = squeeze_64(self.domain, &self.history, label);
        let ghost before = self.history@;
        self.history.push(Op::Challenge(label));
        assert(ops_view(self.history@) =~= ops_view(before).push(Absorbed::Challenge(label@, 64)));
        fr_from_le_bytes_mod_order(&c)
    }

    fn challenge_vector(&mut self, label: &'static [u8], len: usize) -> (r: Vec<Vec<u8>>) {
        let ghost before = self.absorbed();
        let mut r: Vec<Vec<u8>> = Vec::new();
        let mut i: usize = 0;
        while i < len
            invariant
                i <= len,
                r@.len() == i,
                self.domain() == old(self).domain(),
                ops_fit(self.absorbed()),
                forall|k: int|
                    0 <= k < i ==> (#[trigger] r@[k])@ == challenge_of(
                        old(self).domain(),
                        before + challenges(label@, k as nat),
                        label@,
                    ),
                self.absorbed() == before + challenges(label@, i as nat),
            decreases len - i,
        {
            let c = self.challenge_scalar(label);
            r.push(c);
            i = i + 1;
            assert(self.absorbed() =~= before + challenges(label@, i as nat));
        }
        r
    }
}

} // verus!
