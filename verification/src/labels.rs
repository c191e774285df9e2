//! The label schema: flow attributes (direction, peer, TLS status,
//! authority, destination labels) and their deterministic serialization
//! into the label tuples that key every metric.
use vstd::prelude::*;

use crate::classify::{classify, classify_spec, status_label, status_of, Classification,
    ResponseEnd};
use crate::text::{
    append_bytes, ascii_bytes, clone_bytes, comma_clean, comma_free, dec_str, join_commas,
    label_part, lemma_comma_free_clean, lemma_join_commas_clean, lemma_label_part_clean, lit,
    name_byte, name_text, part_exec, push_part, value_byte, value_text, COMMA,
};

verus! {

#[derive(Clone, Copy, Debug, PartialEq, Eq, Structural)]
pub enum Direction {
    Inbound,
    Outbound,
}

#[derive(Clone, Copy, Debug, PartialEq, Eq, Structural)]
pub enum Peer {
    Src,
    Dst,
}

/// A validated label value: free text restricted to what the exposition
/// format can carry unescaped, and never two commas in a row.
#[derive(Debug)]
pub struct LabelValue {
    bytes: Vec<u8>,
}

impl View for LabelValue {
    type V = Seq<u8>;

    closed spec fn view(&self) -> Seq<u8> {
        self.bytes@
    }
}

impl LabelValue {
    /// Accepts `bytes` as a label value when every byte is allowed and
    /// no two commas stand next to each other.
    pub fn new(bytes: Vec<u8>) -> (r: Option<LabelValue>)
        ensures
            match r {
                Some(v) => v@ == bytes@ && value_text(bytes@),
                None => !value_text(bytes@),
            },
    {
        let mut j: usize = 0;
        let mut prev_comma = false;
        while j < bytes.len()
            invariant
                j <= bytes.len(),
                forall|i: int| 0 <= i < j ==> value_byte(#[trigger] bytes@[i]),
                forall|i: int| 0 <= i && i + 1 < j ==> !(#[trigger] bytes@[i] == COMMA
                    && bytes@[i + 1] == COMMA),
                prev_comma <==> (j > 0 && bytes@[j - 1] == COMMA),
            decreases bytes.len() - j,
        {
            let b = bytes[j];
            if b < 32 || b > 126 || b == 34 || b == 92 {
                return None;
            }
            let is_comma = b == COMMA;
            if is_comma && prev_comma {
                return None;
            }
            prev_comma = is_comma;
            j += 1;
        }
        Some(LabelValue { bytes })
    }

    /// The empty label value.
    pub fn empty() -> (r: LabelValue)
        ensures
            r@ == Seq::<u8>::empty(),
            value_text(r@),
    {
        let bytes: Vec<u8> = Vec::new();
        proof {
            assert(bytes@ =~= Seq::<u8>::empty());
        }
        LabelValue { bytes }
    }

    pub open spec fn wf(&self) -> bool {
        value_text(self@)
    }

    pub fn as_bytes(&self) -> (r: &Vec<u8>)
        ensures
            r@ == self@,
    {
        &self.bytes
    }

    pub fn duplicate(&self) -> (r: LabelValue)
        ensures
            r@ == self@,
    {
        LabelValue { bytes: clone_bytes(&self.bytes) }
    }
}

/// A validated label name: letters, digits and underscores, not
/// starting with a digit.
#[derive(Debug)]
pub struct LabelName {
    bytes: Vec<u8>,
}

impl View for LabelName {
    type V = Seq<u8>;

    closed spec fn view(&self) -> Seq<u8> {
        self.bytes@
    }
}

impl LabelName {
    pub fn new(bytes: Vec<u8>) -> (r: Option<LabelName>)
        ensures
            match r {
                Some(v) => v@ == bytes@ && name_text(bytes@),
                None => !name_text(bytes@),
            },
    {
        if bytes.len() == 0 {
            return None;
        }
        let first = bytes[0];
        if 48 <= first && first <= 57 {
            return None;
        }
        let mut j: usize = 0;
        while j < bytes.len()
            invariant
                j <= bytes.len(),
                forall|i: int| 0 <= i < j ==> name_byte(#[trigger] bytes@[i]),
            decreases bytes.len() - j,
        {
            let b = bytes[j];
            let ok = (65 <= b && b <= 90) || (97 <= b && b <= 122) || (48 <= b && b <= 57) || b
                == 95;
            if !ok {
                return None;
            }
            j += 1;
        }
        Some(LabelName { bytes })
    }

    pub open spec fn wf(&self) -> bool {
        name_text(self@)
    }

    pub fn as_bytes(&self) -> (r: &Vec<u8>)
        ensures
            r@ == self@,
    {
        &self.bytes
    }

    pub fn duplicate(&self) -> (r: LabelName)
        ensures
            r@ == self@,
    {
        LabelName { bytes: clone_bytes(&self.bytes) }
    }
}

/// The TLS state of one peer connection, as it appears in the `tls`
/// label; `no_tls_reason` accompanies it only when there is no identity
/// and a reason was observed.
#[derive(Debug)]
pub enum TlsStatus {
    Disabled,
    NoIdentity { reason: Option<LabelValue> },
    Identity { name: LabelValue },
}

impl TlsStatus {
    pub open spec fn wf(&self) -> bool {
        match self {
            TlsStatus::Disabled => true,
            TlsStatus::NoIdentity { reason } => match reason {
                Some(r) => r.wf(),
                None => true,
            },
            TlsStatus::Identity { name } => name.wf(),
        }
    }

    pub fn duplicate(&self) -> (r: TlsStatus)
        ensures
            tls_parts(r) == tls_parts(*self),
            self.wf() ==> r.wf(),
    {
        match self {
            TlsStatus::Disabled => TlsStatus::Disabled,
            TlsStatus::NoIdentity { reason } => match reason {
                Some(r) => TlsStatus::NoIdentity { reason: Some(r.duplicate()) },
                None => TlsStatus::NoIdentity { reason: None },
            },
            TlsStatus::Identity { name } => TlsStatus::Identity { name: name.duplicate() },
        }
    }
}

/// One destination label supplied by service discovery.
#[derive(Debug)]
pub struct DstPair {
    pub name: LabelName,
    pub value: LabelValue,
}

impl DstPair {
    /// The label set never carries an empty entry: a destination label
    /// always has a value.
    pub open spec fn wf(&self) -> bool {
        self.name.wf() && self.value.wf() && self.value@.len() > 0
    }

    pub fn duplicate(&self) -> (r: DstPair)
        ensures
            r.name@ == self.name@,
            r.value@ == self.value@,
    {
        DstPair { name: self.name.duplicate(), value: self.value.duplicate() }
    }
}

/// The destination labels of an outbound flow: per-address labels, then
/// per-address-set labels, each emitted with the `dst_` prefix.
#[derive(Debug)]
pub struct DstLabels {
    pub addr: Vec<DstPair>,
    pub set: Vec<DstPair>,
}

impl DstLabels {
    pub open spec fn wf(&self) -> bool {
        &&& forall|i: int| 0 <= i < self.addr@.len() ==> (#[trigger] self.addr@[i]).wf()
        &&& forall|i: int| 0 <= i < self.set@.len() ==> (#[trigger] self.set@[i]).wf()
    }

    pub fn empty() -> (r: DstLabels)
        ensures
            r.wf(),
            r.addr@.len() == 0,
            r.set@.len() == 0,
    {
        DstLabels { addr: Vec::new(), set: Vec::new() }
    }

    pub fn duplicate(&self) -> (r: DstLabels)
        ensures
            dst_parts(r) == dst_parts(*self),
            dst_view(r) == dst_view(*self),
            self.wf() ==> r.wf(),
            r.addr@.len() == self.addr@.len(),
            r.set@.len() == self.set@.len(),
    {
        let mut addr: Vec<DstPair> = Vec::new();
        let mut j: usize = 0;
        while j < self.addr.len()
            invariant
                j <= self.addr@.len(),
                addr@.len() == j,
                forall|i: int| 0 <= i < j ==> (#[trigger] addr@[i]).name@ == self.addr@[i].name@
                    && addr@[i].value@ == self.addr@[i].value@,
            decreases self.addr@.len() - j,
        {
            addr.push(self.addr[j].duplicate());
            j += 1;
        }
        let mut set: Vec<DstPair> = Vec::new();
        let mut k: usize = 0;
        while k < self.set.len()
            invariant
                k <= self.set@.len(),
                set@.len() == k,
                forall|i: int| 0 <= i < k ==> (#[trigger] set@[i]).name@ == self.set@[i].name@
                    && set@[i].value@ == self.set@[i].value@,
            decreases self.set@.len() - k,
        {
            set.push(self.set[k].duplicate());
            k += 1;
        }
        let r = DstLabels { addr, set };
        proof {
            assert(pair_parts(r.addr@) =~= pair_parts(self.addr@));
            assert(pair_parts(r.set@) =~= pair_parts(self.set@));
            assert(dst_view(r).0 =~= dst_view(*self).0);
            assert(dst_view(r).1 =~= dst_view(*self).1);
            if self.wf() {
                assert forall|i: int| 0 <= i < r.addr@.len() implies (#[trigger] r.addr@[i]).wf() by {
                    assert(self.addr@[i].wf());
                }
                assert forall|i: int| 0 <= i < r.set@.len() implies (#[trigger] r.set@[i]).wf() by {
                    assert(self.set@[i].wf());
                }
            }
        }
        r
    }
}

/// The `dst_`-prefixed serialized pieces of a list of pairs.
pub open spec fn pair_parts(pairs: Seq<DstPair>) -> Seq<Seq<u8>> {
    Seq::new(pairs.len(), |i: int| label_part(ascii_bytes("dst_"@) + pairs[i].name@, pairs[i].value@))
}

/// The abstract content of a destination label set: the name and value
/// text of the address labels, then of the set labels.
pub open spec fn dst_view(d: DstLabels) -> (Seq<(Seq<u8>, Seq<u8>)>, Seq<(Seq<u8>, Seq<u8>)>) {
    (
        Seq::new(d.addr@.len(), |i: int| (d.addr@[i].name@, d.addr@[i].value@)),
        Seq::new(d.set@.len(), |i: int| (d.set@[i].name@, d.set@[i].value@)),
    )
}

pub open spec fn empty_dst_view() -> (Seq<(Seq<u8>, Seq<u8>)>, Seq<(Seq<u8>, Seq<u8>)>) {
    (Seq::<(Seq<u8>, Seq<u8>)>::empty(), Seq::<(Seq<u8>, Seq<u8>)>::empty())
}

/// The serialized pieces are a function of the abstract content alone:
/// two label sets with the same captured content key the same metric
/// points, whatever updates arrive later.
pub proof fn lemma_dst_parts_from_view(a: DstLabels, b: DstLabels)
    requires
        dst_view(a) == dst_view(b),
    ensures
        dst_parts(a) == dst_parts(b),
{
    let va = dst_view(a);
    let vb = dst_view(b);
    assert(va.0 == vb.0);
    assert(va.1 == vb.1);
    assert(a.addr@.len() == b.addr@.len()) by {
        assert(va.0.len() == a.addr@.len());
        assert(vb.0.len() == b.addr@.len());
    }
    assert(a.set@.len() == b.set@.len()) by {
        assert(va.1.len() == a.set@.len());
        assert(vb.1.len() == b.set@.len());
    }
    assert forall|i: int| 0 <= i < a.addr@.len() implies pair_parts(a.addr@)[i] == pair_parts(
        b.addr@,
    )[i] by {
        assert(va.0[i] == (a.addr@[i].name@, a.addr@[i].value@));
        assert(vb.0[i] == (b.addr@[i].name@, b.addr@[i].value@));
        assert(va.0[i] == vb.0[i]);
        assert(a.addr@[i].name@ == b.addr@[i].name@);
        assert(a.addr@[i].value@ == b.addr@[i].value@);
    }
    assert(pair_parts(a.addr@) =~= pair_parts(b.addr@));
    assert forall|i: int| 0 <= i < a.set@.len() implies pair_parts(a.set@)[i] == pair_parts(
        b.set@,
    )[i] by {
        assert(va.1[i] == (a.set@[i].name@, a.set@[i].value@));
        assert(vb.1[i] == (b.set@[i].name@, b.set@[i].value@));
        assert(va.1[i] == vb.1[i]);
        assert(a.set@[i].name@ == b.set@[i].name@);
        assert(a.set@[i].value@ == b.set@[i].value@);
    }
    assert(pair_parts(a.set@) =~= pair_parts(b.set@));
}

pub open spec fn dst_parts(d: DstLabels) -> Seq<Seq<u8>> {
    pair_parts(d.addr@) + pair_parts(d.set@)
}

pub open spec fn direction_value(d: Direction) -> Seq<u8> {
    match d {
        Direction::Inbound => ascii_bytes("inbound"@),
        Direction::Outbound => ascii_bytes("outbound"@),
    }
}

pub open spec fn peer_value(p: Peer) -> Seq<u8> {
    match p {
        Peer::Src => ascii_bytes("src"@),
        Peer::Dst => ascii_bytes("dst"@),
    }
}

/// The serialized pieces contributed by the TLS status: the `tls` label,
/// and `no_tls_reason` when there is no identity and a reason is known.
pub open spec fn tls_parts(t: TlsStatus) -> Seq<Seq<u8>> {
    match t {
        TlsStatus::Disabled => seq![
            label_part(ascii_bytes("tls"@), ascii_bytes("disabled"@)),
        ],
        TlsStatus::NoIdentity { reason } => match reason {
            None => seq![label_part(ascii_bytes("tls"@), ascii_bytes("no_identity"@))],
            Some(r) => seq![
                label_part(ascii_bytes("tls"@), ascii_bytes("no_identity"@)),
                label_part(ascii_bytes("no_tls_reason"@), r@),
            ],
        },
        TlsStatus::Identity { name } => seq![label_part(ascii_bytes("tls"@), name@)],
    }
}

/// The label set captured for one HTTP exchange.
#[derive(Debug)]
pub struct RequestLabels {
    pub authority: LabelValue,
    pub direction: Direction,
    pub dst: DstLabels,
    pub tls: TlsStatus,
}

impl RequestLabels {
    /// The label set never carries an empty entry: an HTTP exchange
    /// always has an authority.
    pub open spec fn wf(&self) -> bool {
        self.authority.wf() && self.authority@.len() > 0 && self.dst.wf() && self.tls.wf()
    }

    pub fn duplicate(&self) -> (r: RequestLabels)
        ensures
            request_parts(r) == request_parts(*self),
            self.wf() ==> r.wf(),
    {
        let r = RequestLabels {
            authority: self.authority.duplicate(),
            direction: self.direction,
            dst: self.dst.duplicate(),
            tls: self.tls.duplicate(),
        };
        proof {
            assert(request_parts(r) =~= request_parts(*self));
        }
        r
    }
}

/// The label set of one transport-level connection.
#[derive(Debug)]
pub struct TransportLabels {
    pub direction: Direction,
    pub peer: Peer,
    pub tls: TlsStatus,
}

impl TransportLabels {
    pub open spec fn wf(&self) -> bool {
        self.tls.wf()
    }

    pub fn duplicate(&self) -> (r: TransportLabels)
        ensures
            transport_parts(r) == transport_parts(*self),
            self.wf() ==> r.wf(),
    {
        let r = TransportLabels {
            direction: self.direction,
            peer: self.peer,
            tls: self.tls.duplicate(),
        };
        proof {
            assert(transport_parts(r) =~= transport_parts(*self));
        }
        r
    }
}

pub open spec fn request_parts(r: RequestLabels) -> Seq<Seq<u8>> {
    seq![
        label_part(ascii_bytes("authority"@), r.authority@),
        label_part(ascii_bytes("direction"@), direction_value(r.direction)),
    ] + dst_parts(r.dst) + tls_parts(r.tls)
}

/// The label tuple of `request_total` for this exchange.
pub open spec fn request_key(r: RequestLabels) -> Seq<u8> {
    join_commas(request_parts(r))
}

pub open spec fn transport_parts(t: TransportLabels) -> Seq<Seq<u8>> {
    seq![
        label_part(ascii_bytes("direction"@), direction_value(t.direction)),
        label_part(ascii_bytes("peer"@), peer_value(t.peer)),
    ] + tls_parts(t.tls)
}

/// The label tuple of the transport open/gauge/bytes metrics.
pub open spec fn transport_key(t: TransportLabels) -> Seq<u8> {
    join_commas(transport_parts(t))
}

/// The label tuple of `tcp_close_total` and of the connection-duration
/// histogram: the transport labels plus the close's errno tag, which is
/// present even when empty.
pub open spec fn close_key(t: TransportLabels, errno: Seq<u8>) -> Seq<u8> {
    join_commas(transport_parts(t).push(label_part(ascii_bytes("errno"@), errno)))
}

pub open spec fn classification_value(c: Classification) -> Seq<u8> {
    match c {
        Classification::Success => ascii_bytes("success"@),
        Classification::Failure => ascii_bytes("failure"@),
    }
}

pub open spec fn response_parts(r: RequestLabels, end: ResponseEnd) -> Seq<Seq<u8>> {
    request_parts(r) + seq![
        label_part(ascii_bytes("status_code"@), dec_str(status_label(end) as nat)),
        label_part(ascii_bytes("classification"@), classification_value(classify_spec(end))),
    ]
}

/// The label tuple of `response_total` for this exchange and outcome.
pub open spec fn response_key(r: RequestLabels, end: ResponseEnd) -> Seq<u8> {
    join_commas(response_parts(r, end))
}

pub open spec fn latency_parts(r: RequestLabels, status: u16) -> Seq<Seq<u8>> {
    request_parts(r).push(label_part(ascii_bytes("status_code"@), dec_str(status as nat)))
}

/// The label tuple of the response-latency histogram: the request's
/// labels plus the status code (the `le` bound is appended per bucket).
pub open spec fn latency_key(r: RequestLabels, status: u16) -> Seq<u8> {
    join_commas(latency_parts(r, status))
}

proof fn ascii_name_text(s: Seq<char>)
    requires
        s.len() > 0,
        forall|i: int| 0 <= i < s.len() ==> name_byte(#[trigger] s[i] as u8),
        !(48 <= s[0] as u8 && s[0] as u8 <= 57),
    ensures
        name_text(ascii_bytes(s)),
{
    assert forall|i: int| 0 <= i < ascii_bytes(s).len() implies name_byte(
        #[trigger] ascii_bytes(s)[i],
    ) by {
        assert(ascii_bytes(s)[i] == s[i] as u8);
    }
    assert(ascii_bytes(s)[0] == s[0] as u8);
}

proof fn ascii_value_no_comma(s: Seq<char>)
    requires
        forall|i: int| 0 <= i < s.len() ==> (value_byte(#[trigger] s[i] as u8) && s[i] as u8
            != COMMA),
    ensures
        value_text(ascii_bytes(s)),
        comma_free(ascii_bytes(s)),
{
    assert forall|i: int| 0 <= i < ascii_bytes(s).len() implies (value_byte(
        #[trigger] ascii_bytes(s)[i],
    ) && ascii_bytes(s)[i] != COMMA) by {
        assert(ascii_bytes(s)[i] == s[i] as u8);
    }
}

/// The fixed label names and values are well-formed text.
pub proof fn lemma_label_literals()
    ensures
        name_text(ascii_bytes("authority"@)),
        name_text(ascii_bytes("direction"@)),
        name_text(ascii_bytes("peer"@)),
        name_text(ascii_bytes("tls"@)),
        name_text(ascii_bytes("no_tls_reason"@)),
        name_text(ascii_bytes("status_code"@)),
        name_text(ascii_bytes("classification"@)),
        name_text(ascii_bytes("errno"@)),
        name_text(ascii_bytes("le"@)),
        name_text(ascii_bytes("dst_"@)),
        value_text(ascii_bytes("inbound"@)),
        value_text(ascii_bytes("outbound"@)),
        value_text(ascii_bytes("src"@)),
        value_text(ascii_bytes("dst"@)),
        value_text(ascii_bytes("disabled"@)),
        value_text(ascii_bytes("no_identity"@)),
        value_text(ascii_bytes("success"@)),
        value_text(ascii_bytes("failure"@)),
{
    reveal_strlit("authority");
    reveal_strlit("direction");
    reveal_strlit("peer");
    reveal_strlit("tls");
    reveal_strlit("no_tls_reason");
    reveal_strlit("status_code");
    reveal_strlit("classification");
    reveal_strlit("errno");
    reveal_strlit("le");
    reveal_strlit("dst_");
    reveal_strlit("inbound");
    reveal_strlit("outbound");
    reveal_strlit("src");
    reveal_strlit("dst");
    reveal_strlit("disabled");
    reveal_strlit("no_identity");
    reveal_strlit("success");
    reveal_strlit("failure");
    ascii_name_text("authority"@);
    ascii_name_text("direction"@);
    ascii_name_text("peer"@);
    ascii_name_text("tls"@);
    ascii_name_text("no_tls_reason"@);
    ascii_name_text("status_code"@);
    ascii_name_text("classification"@);
    ascii_name_text("errno"@);
    ascii_name_text("le"@);
    ascii_name_text("dst_"@);
    ascii_value_no_comma("inbound"@);
    ascii_value_no_comma("outbound"@);
    ascii_value_no_comma("src"@);
    ascii_value_no_comma("dst"@);
    ascii_value_no_comma("disabled"@);
    ascii_value_no_comma("no_identity"@);
    ascii_value_no_comma("success"@);
    ascii_value_no_comma("failure"@);
}

/// Prefixing a well-formed name with another keeps it well-formed.
pub proof fn lemma_name_concat(a: Seq<u8>, b: Seq<u8>)
    requires
        name_text(a),
        forall|i: int| 0 <= i < b.len() ==> name_byte(#[trigger] b[i]),
    ensures
        name_text(a + b),
{
    assert forall|i: int| 0 <= i < (a + b).len() implies name_byte(#[trigger] (a + b)[i]) by {
        if i < a.len() {
            assert((a + b)[i] == a[i]);
        } else {
            assert((a + b)[i] == b[i - a.len()]);
        }
    }
    assert((a + b)[0] == a[0]);
}

/// The decimal rendering of a number is a well-formed label value.
pub proof fn lemma_dec_value_text(n: nat)
    ensures
        value_text(dec_str(n)),
        comma_free(dec_str(n)),
        dec_str(n).len() > 0,
{
    crate::text::lemma_dec_str_digits(n);
    assert forall|i: int| 0 <= i < dec_str(n).len() implies (value_byte(#[trigger] dec_str(n)[i])
        && dec_str(n)[i] != COMMA) by {
        assert(48 <= dec_str(n)[i] <= 57);
    }
}

pub proof fn lemma_tls_parts_clean(t: TlsStatus)
    requires
        t.wf(),
    ensures
        forall|i: int| 0 <= i < tls_parts(t).len() ==> comma_clean(#[trigger] tls_parts(t)[i]),
        tls_parts(t).len() > 0,
{
    lemma_label_literals();
    match t {
        TlsStatus::Disabled => {
            lemma_label_part_clean(ascii_bytes("tls"@), ascii_bytes("disabled"@));
        },
        TlsStatus::NoIdentity { reason } => {
            lemma_label_part_clean(ascii_bytes("tls"@), ascii_bytes("no_identity"@));
            match reason {
                Some(r) => {
                    lemma_label_part_clean(ascii_bytes("no_tls_reason"@), r@);
                },
                None => {},
            }
        },
        TlsStatus::Identity { name } => {
            lemma_label_part_clean(ascii_bytes("tls"@), name@);
        },
    }
}

pub proof fn lemma_dst_parts_clean(d: DstLabels)
    requires
        d.wf(),
    ensures
        forall|i: int| 0 <= i < dst_parts(d).len() ==> comma_clean(#[trigger] dst_parts(d)[i]),
{
    lemma_label_literals();
    assert forall|i: int| 0 <= i < dst_parts(d).len() implies comma_clean(
        #[trigger] dst_parts(d)[i],
    ) by {
        if i < d.addr@.len() {
            let p = d.addr@[i];
            assert(p.wf());
            lemma_name_concat(ascii_bytes("dst_"@), p.name@);
            lemma_label_part_clean(ascii_bytes("dst_"@) + p.name@, p.value@);
            assert(dst_parts(d)[i] == pair_parts(d.addr@)[i]);
        } else {
            let p = d.set@[i - d.addr@.len()];
            assert(p.wf());
            lemma_name_concat(ascii_bytes("dst_"@), p.name@);
            lemma_label_part_clean(ascii_bytes("dst_"@) + p.name@, p.value@);
            assert(dst_parts(d)[i] == pair_parts(d.set@)[i - d.addr@.len()]);
        }
    }
}

pub proof fn lemma_request_parts_clean(r: RequestLabels)
    requires
        r.wf(),
    ensures
        forall|i: int| 0 <= i < request_parts(r).len() ==> comma_clean(
            #[trigger] request_parts(r)[i],
        ),
        request_parts(r).len() > 0,
{
    lemma_label_literals();
    lemma_label_part_clean(ascii_bytes("authority"@), r.authority@);
    lemma_label_part_clean(ascii_bytes("direction"@), direction_value(r.direction));
    lemma_dst_parts_clean(r.dst);
    lemma_tls_parts_clean(r.tls);
    let head = seq![
        label_part(ascii_bytes("authority"@), r.authority@),
        label_part(ascii_bytes("direction"@), direction_value(r.direction)),
    ];
    assert forall|i: int| 0 <= i < request_parts(r).len() implies comma_clean(
        #[trigger] request_parts(r)[i],
    ) by {
        if i < 2 {
            assert(request_parts(r)[i] == head[i]);
        } else if i < 2 + dst_parts(r.dst).len() {
            assert(request_parts(r)[i] == dst_parts(r.dst)[i - 2]);
        } else {
            assert(request_parts(r)[i] == tls_parts(r.tls)[i - 2 - dst_parts(r.dst).len()]);
        }
    }
}

pub proof fn lemma_request_key_clean(r: RequestLabels)
    requires
        r.wf(),
    ensures
        comma_clean(request_key(r)),
{
    lemma_request_parts_clean(r);
    lemma_join_commas_clean(request_parts(r));
}

pub proof fn lemma_transport_parts_clean(t: TransportLabels)
    requires
        t.wf(),
    ensures
        forall|i: int| 0 <= i < transport_parts(t).len() ==> comma_clean(
            #[trigger] transport_parts(t)[i],
        ),
        transport_parts(t).len() > 0,
{
    lemma_label_literals();
    lemma_label_part_clean(ascii_bytes("direction"@), direction_value(t.direction));
    lemma_label_part_clean(ascii_bytes("peer"@), peer_value(t.peer));
    lemma_tls_parts_clean(t.tls);
    let head = seq![
        label_part(ascii_bytes("direction"@), direction_value(t.direction)),
        label_part(ascii_bytes("peer"@), peer_value(t.peer)),
    ];
    assert forall|i: int| 0 <= i < transport_parts(t).len() implies comma_clean(
        #[trigger] transport_parts(t)[i],
    ) by {
        if i < 2 {
            assert(transport_parts(t)[i] == head[i]);
        } else {
            assert(transport_parts(t)[i] == tls_parts(t.tls)[i - 2]);
        }
    }
}

pub proof fn lemma_transport_key_clean(t: TransportLabels)
    requires
        t.wf(),
    ensures
        comma_clean(transport_key(t)),
{
    lemma_transport_parts_clean(t);
    lemma_join_commas_clean(transport_parts(t));
}

pub proof fn lemma_close_key_clean(t: TransportLabels, errno: Seq<u8>)
    requires
        t.wf(),
        value_text(errno),
    ensures
        comma_clean(close_key(t, errno)),
{
    lemma_label_literals();
    lemma_transport_parts_clean(t);
    lemma_label_part_clean(ascii_bytes("errno"@), errno);
    let parts = transport_parts(t).push(label_part(ascii_bytes("errno"@), errno));
    assert forall|i: int| 0 <= i < parts.len() implies comma_clean(#[trigger] parts[i]) by {
        if i < transport_parts(t).len() {
            assert(parts[i] == transport_parts(t)[i]);
        } else {
            assert(parts[i] == label_part(ascii_bytes("errno"@), errno));
        }
    }
    lemma_join_commas_clean(parts);
}

pub proof fn lemma_response_key_clean(r: RequestLabels, end: ResponseEnd)
    requires
        r.wf(),
    ensures
        comma_clean(response_key(r, end)),
{
    lemma_label_literals();
    lemma_request_parts_clean(r);
    lemma_dec_value_text(status_label(end) as nat);
    lemma_label_part_clean(ascii_bytes("status_code"@), dec_str(status_label(end) as nat));
    lemma_label_part_clean(
        ascii_bytes("classification"@),
        classification_value(classify_spec(end)),
    );
    let tail = seq![
        label_part(ascii_bytes("status_code"@), dec_str(status_label(end) as nat)),
        label_part(ascii_bytes("classification"@), classification_value(classify_spec(end))),
    ];
    let parts = response_parts(r, end);
    assert forall|i: int| 0 <= i < parts.len() implies comma_clean(#[trigger] parts[i]) by {
        if i < request_parts(r).len() {
            assert(parts[i] == request_parts(r)[i]);
        } else {
            assert(parts[i] == tail[i - request_parts(r).len()]);
        }
    }
    lemma_join_commas_clean(parts);
}

pub proof fn lemma_latency_key_clean(r: RequestLabels, status: u16)
    requires
        r.wf(),
    ensures
        comma_clean(latency_key(r, status)),
{
    lemma_label_literals();
    lemma_request_parts_clean(r);
    lemma_dec_value_text(status as nat);
    lemma_label_part_clean(ascii_bytes("status_code"@), dec_str(status as nat));
    let parts = latency_parts(r, status);
    assert forall|i: int| 0 <= i < parts.len() implies comma_clean(#[trigger] parts[i]) by {
        if i < request_parts(r).len() {
            assert(parts[i] == request_parts(r)[i]);
        } else {
            assert(parts[i] == label_part(ascii_bytes("status_code"@), dec_str(status as nat)));
        }
    }
    lemma_join_commas_clean(parts);
}

pub fn direction_bytes(d: Direction) -> (r: Vec<u8>)
    ensures
        r@ == direction_value(d),
{
    proof {
        reveal_strlit("inbound");
        reveal_strlit("outbound");
    }
    match d {
        Direction::Inbound => lit("inbound"),
        Direction::Outbound => lit("outbound"),
    }
}

pub fn peer_bytes(p: Peer) -> (r: Vec<u8>)
    ensures
        r@ == peer_value(p),
{
    proof {
        reveal_strlit("src");
        reveal_strlit("dst");
    }
    match p {
        Peer::Src => lit("src"),
        Peer::Dst => lit("dst"),
    }
}

pub fn classification_bytes(c: Classification) -> (r: Vec<u8>)
    ensures
        r@ == classification_value(c),
{
    proof {
        reveal_strlit("success");
        reveal_strlit("failure");
    }
    match c {
        Classification::Success => lit("success"),
        Classification::Failure => lit("failure"),
    }
}

/// Append one `key="value"` piece to a label tuple under construction.
fn push_label(out: &mut Vec<u8>, key: &Vec<u8>, value: &Vec<u8>, Ghost(parts): Ghost<Seq<Seq<u8>>>)
    requires
        old(out)@ == join_commas(parts),
        old(out)@.len() == 0 <==> parts.len() == 0,
    ensures
        final(out)@ == join_commas(parts.push(label_part(key@, value@))),
        final(out)@.len() > 0,
{
    let p = part_exec(key, value);
    push_part(out, &p, Ghost(parts));
    proof {
        crate::text::lemma_join_commas_push(parts, p@);
    }
}

/// Append the TLS pieces.
fn push_tls(out: &mut Vec<u8>, tls: &TlsStatus, Ghost(parts): Ghost<Seq<Seq<u8>>>)
    requires
        old(out)@ == join_commas(parts),
        old(out)@.len() == 0 <==> parts.len() == 0,
    ensures
        final(out)@ == join_commas(parts + tls_parts(*tls)),
        final(out)@.len() > 0,
{
    proof {
        reveal_strlit("tls");
        reveal_strlit("disabled");
        reveal_strlit("no_identity");
        reveal_strlit("no_tls_reason");
    }
    let key = lit("tls");
    match tls {
        TlsStatus::Disabled => {
            push_label(out, &key, &lit("disabled"), Ghost(parts));
            proof {
                assert(parts.push(
                    label_part(ascii_bytes("tls"@), ascii_bytes("disabled"@)),
                ) =~= parts + tls_parts(*tls));
            }
        },
        TlsStatus::NoIdentity { reason } => {
            push_label(out, &key, &lit("no_identity"), Ghost(parts));
            let ghost parts1 = parts.push(
                label_part(ascii_bytes("tls"@), ascii_bytes("no_identity"@)),
            );
            match reason {
                Some(r) => {
                    push_label(out, &lit("no_tls_reason"), r.as_bytes(), Ghost(parts1));
                    proof {
                        assert(parts1.push(label_part(ascii_bytes("no_tls_reason"@), r@)) =~= parts
                            + tls_parts(*tls));
                    }
                },
                None => {
                    proof {
                        assert(parts1 =~= parts + tls_parts(*tls));
                    }
                },
            }
        },
        TlsStatus::Identity { name } => {
            push_label(out, &key, name.as_bytes(), Ghost(parts));
            proof {
                assert(parts.push(label_part(ascii_bytes("tls"@), name@)) =~= parts + tls_parts(
                    *tls,
                ));
            }
        },
    }
}

/// Append the `dst_`-prefixed destination pieces.
fn push_dst(out: &mut Vec<u8>, dst: &DstLabels, Ghost(parts): Ghost<Seq<Seq<u8>>>)
    requires
        old(out)@ == join_commas(parts),
        old(out)@.len() == 0 <==> parts.len() == 0,
    ensures
        final(out)@ == join_commas(parts + dst_parts(*dst)),
        final(out)@.len() == 0 <==> (parts + dst_parts(*dst)).len() == 0,
{
    proof {
        reveal_strlit("dst_");
    }
    let mut j: usize = 0;
    while j < dst.addr.len()
        invariant
            j <= dst.addr@.len(),
            out@ == join_commas(parts + pair_parts(dst.addr@.subrange(0, j as int))),
            out@.len() == 0 <==> (parts + pair_parts(dst.addr@.subrange(0, j as int))).len() == 0,
        decreases dst.addr@.len() - j,
    {
        let ghost sofar = parts + pair_parts(dst.addr@.subrange(0, j as int));
        let pair = &dst.addr[j];
        proof {
            reveal_strlit("dst_");
        }
        let mut kb = lit("dst_");
        append_bytes(&mut kb, pair.name.as_bytes());
        push_label(out, &kb, pair.value.as_bytes(), Ghost(sofar));
        proof {
            assert(sofar.push(label_part(ascii_bytes("dst_"@) + dst.addr@[j as int].name@,
                dst.addr@[j as int].value@)) =~= parts + pair_parts(
                dst.addr@.subrange(0, j + 1),
            ));
        }
        j += 1;
    }
    proof {
        assert(dst.addr@.subrange(0, dst.addr@.len() as int) =~= dst.addr@);
    }
    let mut k: usize = 0;
    while k < dst.set.len()
        invariant
            k <= dst.set@.len(),
            out@ == join_commas(parts + pair_parts(dst.addr@) + pair_parts(
                dst.set@.subrange(0, k as int),
            )),
            out@.len() == 0 <==> (parts + pair_parts(dst.addr@) + pair_parts(
                dst.set@.subrange(0, k as int),
            )).len() == 0,
        decreases dst.set@.len() - k,
    {
        let ghost sofar = parts + pair_parts(dst.addr@) + pair_parts(dst.set@.subrange(0, k as int));
        let pair = &dst.set[k];
        proof {
            reveal_strlit("dst_");
        }
        let mut kb = lit("dst_");
        append_bytes(&mut kb, pair.name.as_bytes());
        push_label(out, &kb, pair.value.as_bytes(), Ghost(sofar));
        proof {
            assert(sofar.push(label_part(ascii_bytes("dst_"@) + dst.set@[k as int].name@,
                dst.set@[k as int].value@)) =~= parts + pair_parts(dst.addr@) + pair_parts(
                dst.set@.subrange(0, k + 1),
            ));
        }
        k += 1;
    }
    proof {
        assert(dst.set@.subrange(0, dst.set@.len() as int) =~= dst.set@);
        assert(parts + pair_parts(dst.addr@) + pair_parts(dst.set@) =~= parts + dst_parts(*dst));
    }
}

/// Append the shared request pieces: authority, direction, destination
/// labels.
fn push_request_head(out: &mut Vec<u8>, r: &RequestLabels, Ghost(parts): Ghost<Seq<Seq<u8>>>)
    requires
        old(out)@ == join_commas(parts),
        old(out)@.len() == 0 <==> parts.len() == 0,
    ensures
        final(out)@ == join_commas(parts + request_parts(*r)),
        final(out)@.len() > 0,
{
    proof {
        reveal_strlit("authority");
        reveal_strlit("direction");
    }
    push_label(out, &lit("authority"), r.authority.as_bytes(), Ghost(parts));
    let ghost parts1 = parts.push(label_part(ascii_bytes("authority"@), r.authority@));
    let dv = direction_bytes(r.direction);
    push_label(out, &lit("direction"), &dv, Ghost(parts1));
    let ghost parts2 = parts1.push(
        label_part(ascii_bytes("direction"@), direction_value(r.direction)),
    );
    push_dst(out, &r.dst, Ghost(parts2));
    let ghost parts3 = parts2 + dst_parts(r.dst);
    push_tls(out, &r.tls, Ghost(parts3));
    proof {
        assert(parts3 + tls_parts(r.tls) =~= parts + request_parts(*r));
    }
}

/// Build the `request_total` label tuple for this exchange.
pub fn request_key_exec(r: &RequestLabels) -> (k: Vec<u8>)
    ensures
        k@ == request_key(*r),
{
    let mut out: Vec<u8> = Vec::new();
    push_request_head(&mut out, r, Ghost(Seq::empty()));
    proof {
        assert(Seq::<Seq<u8>>::empty() + request_parts(*r) =~= request_parts(*r));
    }
    out
}

/// Build the `response_total` label tuple for this exchange and outcome.
pub fn response_key_exec(r: &RequestLabels, end: &ResponseEnd) -> (k: Vec<u8>)
    ensures
        k@ == response_key(*r, *end),
{
    proof {
        reveal_strlit("status_code");
        reveal_strlit("classification");
    }
    let mut out: Vec<u8> = Vec::new();
    push_request_head(&mut out, r, Ghost(Seq::empty()));
    let ghost parts1 = Seq::<Seq<u8>>::empty() + request_parts(*r);
    let status = status_of(end);
    let sv = crate::text::fmt_u64(status as u64);
    push_label(&mut out, &lit("status_code"), &sv, Ghost(parts1));
    let ghost parts2 = parts1.push(
        label_part(ascii_bytes("status_code"@), dec_str(status_label(*end) as nat)),
    );
    let cls = classify(end);
    let cv = classification_bytes(cls);
    push_label(&mut out, &lit("classification"), &cv, Ghost(parts2));
    proof {
        assert(parts2.push(
            label_part(
                ascii_bytes("classification"@),
                classification_value(classify_spec(*end)),
            ),
        ) =~= response_parts(*r, *end));
    }
    out
}

/// Build the response-latency label tuple for this exchange and status.
pub fn latency_key_exec(r: &RequestLabels, status: u16) -> (k: Vec<u8>)
    ensures
        k@ == latency_key(*r, status),
{
    proof {
        reveal_strlit("status_code");
    }
    let mut out: Vec<u8> = Vec::new();
    push_request_head(&mut out, r, Ghost(Seq::empty()));
    let ghost parts1 = Seq::<Seq<u8>>::empty() + request_parts(*r);
    let sv = crate::text::fmt_u64(status as u64);
    push_label(&mut out, &lit("status_code"), &sv, Ghost(parts1));
    proof {
        assert(parts1.push(label_part(ascii_bytes("status_code"@), dec_str(status as nat))) =~=
            latency_parts(*r, status));
    }
    out
}

/// Build the transport label tuple.
pub fn transport_key_exec(t: &TransportLabels) -> (k: Vec<u8>)
    ensures
        k@ == transport_key(*t),
{
    proof {
        reveal_strlit("direction");
        reveal_strlit("peer");
    }
    let mut out: Vec<u8> = Vec::new();
    let dv = direction_bytes(t.direction);
    push_label(&mut out, &lit("direction"), &dv, Ghost(Seq::empty()));
    let ghost parts1 = Seq::<Seq<u8>>::empty().push(
        label_part(ascii_bytes("direction"@), direction_value(t.direction)),
    );
    let pv = peer_bytes(t.peer);
    push_label(&mut out, &lit("peer"), &pv, Ghost(parts1));
    let ghost parts2 = parts1.push(label_part(ascii_bytes("peer"@), peer_value(t.peer)));
    push_tls(&mut out, &t.tls, Ghost(parts2));
    proof {
        assert(parts2 + tls_parts(t.tls) =~= transport_parts(*t));
    }
    out
}

/// Build the close/duration label tuple, with its errno tag.
pub fn close_key_exec(t: &TransportLabels, errno: &LabelValue) -> (k: Vec<u8>)
    ensures
        k@ == close_key(*t, errno@),
{
    proof {
        reveal_strlit("errno");
    }
    let mut out = transport_key_exec(t);
    proof {
        lemma_transport_parts_clean_len(*t);
    }
    push_label(&mut out, &lit("errno"), errno.as_bytes(), Ghost(transport_parts(*t)));
    out
}

/// The transport pieces are never empty, so their join is never empty.
proof fn lemma_transport_parts_clean_len(t: TransportLabels)
    ensures
        join_commas(transport_parts(t)).len() > 0,
{
    let parts = transport_parts(t);
    assert(parts.len() >= 3);
    crate::text::lemma_join_commas_push(parts.drop_last(), parts.last());
    assert(parts.drop_last().push(parts.last()) =~= parts);
}

} // verus!
