//! The observation bus and the registry it feeds: one `Telemetry` value
//! holds every metric family, the process start time, and the label
//! resolver. The forwarding stack calls one hook per lifecycle moment;
//! each hook updates exactly the points its event concerns and leaves
//! every other point untouched.
use vstd::prelude::*;

use crate::classify::{status_label, ResponseEnd};
use crate::labels::{
    close_key, dst_view, empty_dst_view, latency_key, lemma_close_key_clean,
    lemma_latency_key_clean, lemma_request_key_clean, lemma_response_key_clean,
    lemma_transport_key_clean, close_key_exec, latency_key_exec, request_key, request_key_exec,
    response_key, response_key_exec, transport_key, transport_key_exec, Direction, DstLabels,
    LabelValue, Peer, RequestLabels, TlsStatus, TransportLabels,
};
use crate::metrics::{
    has_key, hist_count, hist_observe, hist_of, lookup, sat_add, sat_sub, scalar_of,
    HistogramFamily, ScalarFamily,
};
use crate::resolver::Resolver;

verus! {

/// The transport labels recorded when a connection is accepted: the
/// peer is the client side.
pub open spec fn accept_labels(direction: Direction, tls: TlsStatus) -> TransportLabels {
    TransportLabels { direction, peer: Peer::Src, tls }
}

/// The transport labels recorded when a connection is opened to an
/// upstream: the peer is the server side.
pub open spec fn connect_labels(direction: Direction, tls: TlsStatus) -> TransportLabels {
    TransportLabels { direction, peer: Peer::Dst, tls }
}

/// The telemetry core: every metric family, the process start time, and
/// the destination-label resolver.
pub struct Telemetry {
    pub start_time_secs: u64,
    pub request_total: ScalarFamily,
    pub response_total: ScalarFamily,
    pub response_latency: HistogramFamily,
    pub tcp_open_total: ScalarFamily,
    pub tcp_close_total: ScalarFamily,
    pub tcp_open_connections: ScalarFamily,
    pub tcp_read_bytes: ScalarFamily,
    pub tcp_write_bytes: ScalarFamily,
    pub connection_duration: HistogramFamily,
    pub resolver: Resolver,
}

/// No counter of `b` is below its value in `a`: what every hook
/// guarantees from one scrape to the next.
pub open spec fn counters_monotone(a: Telemetry, b: Telemetry) -> bool {
    &&& forall|k: Seq<u8>|
        #![auto]
        scalar_of(b.request_total@, k) >= scalar_of(a.request_total@, k)
    &&& forall|k: Seq<u8>|
        #![auto]
        scalar_of(b.response_total@, k) >= scalar_of(a.response_total@, k)
    &&& forall|k: Seq<u8>|
        #![auto]
        scalar_of(b.tcp_open_total@, k) >= scalar_of(a.tcp_open_total@, k)
    &&& forall|k: Seq<u8>|
        #![auto]
        scalar_of(b.tcp_close_total@, k) >= scalar_of(a.tcp_close_total@, k)
    &&& forall|k: Seq<u8>|
        #![auto]
        scalar_of(b.tcp_read_bytes@, k) >= scalar_of(a.tcp_read_bytes@, k)
    &&& forall|k: Seq<u8>|
        #![auto]
        scalar_of(b.tcp_write_bytes@, k) >= scalar_of(a.tcp_write_bytes@, k)
    &&& forall|k: Seq<u8>|
        #![auto]
        hist_count(hist_of(b.response_latency@, k)) >= hist_count(hist_of(a.response_latency@, k))
    &&& forall|k: Seq<u8>|
        #![auto]
        hist_count(hist_of(b.connection_duration@, k)) >= hist_count(
            hist_of(a.connection_duration@, k),
        )
}

/// Label isolation: when observations are counted one after the other
/// under two different captured label sets — as `on_request` counts
/// them — each accumulates under its own point, and the earlier point's
/// count is exactly what it was before, unchanged by the later
/// observation. A label update itself moves no point at all: see the
/// ensures of `set_dst_labels`.
pub proof fn lemma_label_isolation(
    before: Seq<(Seq<u8>, u64)>,
    mid: Seq<(Seq<u8>, u64)>,
    after: Seq<(Seq<u8>, u64)>,
    r1: RequestLabels,
    r2: RequestLabels,
)
    requires
        request_key(r1) != request_key(r2),
        scalar_of(mid, request_key(r1)) == sat_add(scalar_of(before, request_key(r1)), 1),
        forall|k: Seq<u8>| k != request_key(r1) ==> scalar_of(mid, k) == scalar_of(before, k),
        scalar_of(after, request_key(r2)) == sat_add(scalar_of(mid, request_key(r2)), 1),
        forall|k: Seq<u8>| k != request_key(r2) ==> scalar_of(after, k) == scalar_of(mid, k),
    ensures
        scalar_of(after, request_key(r1)) == sat_add(scalar_of(before, request_key(r1)), 1),
        scalar_of(after, request_key(r2)) == sat_add(scalar_of(before, request_key(r2)), 1),
{
}

/// Counter monotonicity carries across any run of hook calls.
pub proof fn lemma_counters_monotone_trans(a: Telemetry, b: Telemetry, c: Telemetry)
    requires
        counters_monotone(a, b),
        counters_monotone(b, c),
    ensures
        counters_monotone(a, c),
{
}

impl Telemetry {
    pub open spec fn wf(&self) -> bool {
        &&& self.request_total.wf()
        &&& self.response_total.wf()
        &&& self.response_latency.wf()
        &&& self.tcp_open_total.wf()
        &&& self.tcp_close_total.wf()
        &&& self.tcp_open_connections.wf()
        &&& self.tcp_read_bytes.wf()
        &&& self.tcp_write_bytes.wf()
        &&& self.connection_duration.wf()
        &&& self.resolver.wf()
    }

    /// A fresh telemetry core: every family empty, the process start
    /// time fixed to `start_time_secs` (wall-clock seconds since the
    /// epoch).
    pub fn new(start_time_secs: u64) -> (r: Telemetry)
        ensures
            r.wf(),
            r.start_time_secs == start_time_secs,
            r.request_total@.len() == 0,
            r.response_total@.len() == 0,
            r.response_latency@.len() == 0,
            r.tcp_open_total@.len() == 0,
            r.tcp_close_total@.len() == 0,
            r.tcp_open_connections@.len() == 0,
            r.tcp_read_bytes@.len() == 0,
            r.tcp_write_bytes@.len() == 0,
            r.connection_duration@.len() == 0,
    {
        Telemetry {
            start_time_secs,
            request_total: ScalarFamily::new(),
            response_total: ScalarFamily::new(),
            response_latency: HistogramFamily::new(),
            tcp_open_total: ScalarFamily::new(),
            tcp_close_total: ScalarFamily::new(),
            tcp_open_connections: ScalarFamily::new(),
            tcp_read_bytes: ScalarFamily::new(),
            tcp_write_bytes: ScalarFamily::new(),
            connection_duration: HistogramFamily::new(),
            resolver: Resolver::new(),
        }
    }

    /// A connection was accepted: count it open and raise the open
    /// gauge, under the source-peer transport labels.
    pub fn on_accept(&mut self, direction: Direction, tls: &TlsStatus)
        requires
            old(self).wf(),
            tls.wf(),
        ensures
            final(self).wf(),
            ({
                let k = transport_key(accept_labels(direction, *tls));
                &&& scalar_of(final(self).tcp_open_total@, k) == sat_add(
                    scalar_of(old(self).tcp_open_total@, k),
                    1,
                )
                &&& scalar_of(final(self).tcp_open_connections@, k) == sat_add(
                    scalar_of(old(self).tcp_open_connections@, k),
                    1,
                )
                &&& forall|k2: Seq<u8>|
                    k2 != k ==> scalar_of(final(self).tcp_open_total@, k2) == scalar_of(
                        old(self).tcp_open_total@,
                        k2,
                    )
                &&& forall|k2: Seq<u8>|
                    k2 != k ==> scalar_of(final(self).tcp_open_connections@, k2) == scalar_of(
                        old(self).tcp_open_connections@,
                        k2,
                    )
            }),
            final(self).request_total == old(self).request_total,
            final(self).response_total == old(self).response_total,
            final(self).response_latency == old(self).response_latency,
            final(self).tcp_close_total == old(self).tcp_close_total,
            final(self).tcp_read_bytes == old(self).tcp_read_bytes,
            final(self).tcp_write_bytes == old(self).tcp_write_bytes,
            final(self).connection_duration == old(self).connection_duration,
            final(self).resolver == old(self).resolver,
            final(self).start_time_secs == old(self).start_time_secs,
            counters_monotone(*old(self), *final(self)),
    {
        let t = TransportLabels { direction, peer: Peer::Src, tls: tls.duplicate() };
        proof {
            assert(crate::labels::transport_parts(t) =~= crate::labels::transport_parts(
                accept_labels(direction, *tls),
            ));
            lemma_transport_key_clean(accept_labels(direction, *tls));
        }
        let k = transport_key_exec(&t);
        self.tcp_open_total.add(&k, 1);
        self.tcp_open_connections.add(&k, 1);
    }

    /// A connection to an upstream was opened: count it open and raise
    /// the open gauge, under the destination-peer transport labels.
    pub fn on_connect(&mut self, direction: Direction, tls: &TlsStatus)
        requires
            old(self).wf(),
            tls.wf(),
        ensures
            final(self).wf(),
            ({
                let k = transport_key(connect_labels(direction, *tls));
                &&& scalar_of(final(self).tcp_open_total@, k) == sat_add(
                    scalar_of(old(self).tcp_open_total@, k),
                    1,
                )
                &&& scalar_of(final(self).tcp_open_connections@, k) == sat_add(
                    scalar_of(old(self).tcp_open_connections@, k),
                    1,
                )
                &&& forall|k2: Seq<u8>|
                    k2 != k ==> scalar_of(final(self).tcp_open_total@, k2) == scalar_of(
                        old(self).tcp_open_total@,
                        k2,
                    )
                &&& forall|k2: Seq<u8>|
                    k2 != k ==> scalar_of(final(self).tcp_open_connections@, k2) == scalar_of(
                        old(self).tcp_open_connections@,
                        k2,
                    )
            }),
            final(self).request_total == old(self).request_total,
            final(self).response_total == old(self).response_total,
            final(self).response_latency == old(self).response_latency,
            final(self).tcp_close_total == old(self).tcp_close_total,
            final(self).tcp_read_bytes == old(self).tcp_read_bytes,
            final(self).tcp_write_bytes == old(self).tcp_write_bytes,
            final(self).connection_duration == old(self).connection_duration,
            final(self).resolver == old(self).resolver,
            final(self).start_time_secs == old(self).start_time_secs,
            counters_monotone(*old(self), *final(self)),
    {
        let t = TransportLabels { direction, peer: Peer::Dst, tls: tls.duplicate() };
        proof {
            assert(crate::labels::transport_parts(t) =~= crate::labels::transport_parts(
                connect_labels(direction, *tls),
            ));
            lemma_transport_key_clean(connect_labels(direction, *tls));
        }
        let k = transport_key_exec(&t);
        self.tcp_open_total.add(&k, 1);
        self.tcp_open_connections.add(&k, 1);
    }

    /// Opening a connection to an upstream failed: count one close with
    /// the errno tag. The open counter and gauge do not move.
    pub fn on_connect_error(&mut self, direction: Direction, tls: &TlsStatus, errno: &LabelValue)
        requires
            old(self).wf(),
            tls.wf(),
            errno.wf(),
        ensures
            final(self).wf(),
            ({
                let k = close_key(connect_labels(direction, *tls), errno@);
                &&& scalar_of(final(self).tcp_close_total@, k) == sat_add(
                    scalar_of(old(self).tcp_close_total@, k),
                    1,
                )
                &&& forall|k2: Seq<u8>|
                    k2 != k ==> scalar_of(final(self).tcp_close_total@, k2) == scalar_of(
                        old(self).tcp_close_total@,
                        k2,
                    )
            }),
            final(self).request_total == old(self).request_total,
            final(self).response_total == old(self).response_total,
            final(self).response_latency == old(self).response_latency,
            final(self).tcp_open_total == old(self).tcp_open_total,
            final(self).tcp_open_connections == old(self).tcp_open_connections,
            final(self).tcp_read_bytes == old(self).tcp_read_bytes,
            final(self).tcp_write_bytes == old(self).tcp_write_bytes,
            final(self).connection_duration == old(self).connection_duration,
            final(self).resolver == old(self).resolver,
            final(self).start_time_secs == old(self).start_time_secs,
            counters_monotone(*old(self), *final(self)),
    {
        let t = TransportLabels { direction, peer: Peer::Dst, tls: tls.duplicate() };
        proof {
            assert(crate::labels::transport_parts(t) =~= crate::labels::transport_parts(
                connect_labels(direction, *tls),
            ));
            lemma_close_key_clean(connect_labels(direction, *tls), errno@);
        }
        let k = close_key_exec(&t, errno);
        self.tcp_close_total.add(&k, 1);
    }

    /// A connection closed: count the close with its errno tag, lower
    /// the open gauge, account the bytes moved in each direction, and
    /// observe the connection's lifetime in the duration histogram.
    pub fn on_close(
        &mut self,
        direction: Direction,
        peer: Peer,
        tls: &TlsStatus,
        errno: &LabelValue,
        bytes_read: u64,
        bytes_written: u64,
        duration_ms: u64,
    )
        requires
            old(self).wf(),
            tls.wf(),
            errno.wf(),
        ensures
            final(self).wf(),
            ({
                let tk = transport_key(TransportLabels { direction, peer, tls: *tls });
                let ck = close_key(TransportLabels { direction, peer, tls: *tls }, errno@);
                &&& scalar_of(final(self).tcp_close_total@, ck) == sat_add(
                    scalar_of(old(self).tcp_close_total@, ck),
                    1,
                )
                &&& scalar_of(final(self).tcp_open_connections@, tk) == sat_sub(
                    scalar_of(old(self).tcp_open_connections@, tk),
                    1,
                )
                &&& scalar_of(final(self).tcp_read_bytes@, tk) == sat_add(
                    scalar_of(old(self).tcp_read_bytes@, tk),
                    bytes_read,
                )
                &&& scalar_of(final(self).tcp_write_bytes@, tk) == sat_add(
                    scalar_of(old(self).tcp_write_bytes@, tk),
                    bytes_written,
                )
                &&& hist_of(final(self).connection_duration@, ck) == hist_observe(
                    hist_of(old(self).connection_duration@, ck),
                    duration_ms,
                )
                &&& forall|k2: Seq<u8>|
                    k2 != ck ==> scalar_of(final(self).tcp_close_total@, k2) == scalar_of(
                        old(self).tcp_close_total@,
                        k2,
                    )
                &&& forall|k2: Seq<u8>|
                    k2 != tk ==> scalar_of(final(self).tcp_open_connections@, k2) == scalar_of(
                        old(self).tcp_open_connections@,
                        k2,
                    )
                &&& forall|k2: Seq<u8>|
                    k2 != tk ==> scalar_of(final(self).tcp_read_bytes@, k2) == scalar_of(
                        old(self).tcp_read_bytes@,
                        k2,
                    )
                &&& forall|k2: Seq<u8>|
                    k2 != tk ==> scalar_of(final(self).tcp_write_bytes@, k2) == scalar_of(
                        old(self).tcp_write_bytes@,
                        k2,
                    )
                &&& forall|k2: Seq<u8>|
                    k2 != ck ==> hist_of(final(self).connection_duration@, k2) == hist_of(
                        old(self).connection_duration@,
                        k2,
                    )
            }),
            final(self).request_total == old(self).request_total,
            final(self).response_total == old(self).response_total,
            final(self).response_latency == old(self).response_latency,
            final(self).tcp_open_total == old(self).tcp_open_total,
            final(self).resolver == old(self).resolver,
            final(self).start_time_secs == old(self).start_time_secs,
            counters_monotone(*old(self), *final(self)),
    {
        let t = TransportLabels { direction, peer, tls: tls.duplicate() };
        proof {
            assert(crate::labels::transport_parts(t) =~= crate::labels::transport_parts(
                TransportLabels { direction, peer, tls: *tls },
            ));
            lemma_transport_key_clean(TransportLabels { direction, peer, tls: *tls });
            lemma_close_key_clean(TransportLabels { direction, peer, tls: *tls }, errno@);
        }
        let tk = transport_key_exec(&t);
        let ck = close_key_exec(&t, errno);
        self.tcp_close_total.add(&ck, 1);
        self.tcp_open_connections.sub(&tk, 1);
        self.tcp_read_bytes.add(&tk, bytes_read);
        self.tcp_write_bytes.add(&tk, bytes_written);
        self.connection_duration.observe(&ck, duration_ms);
    }

    /// Capture the label set under which one HTTP exchange will be
    /// counted: the flow's static attributes, and for an outbound flow
    /// whatever destination labels are current for its address at this
    /// moment. Later updates do not move observations already captured.
    pub fn begin_request(
        &self,
        authority: &LabelValue,
        direction: Direction,
        tls: &TlsStatus,
        dst_addr: Option<&Vec<u8>>,
    ) -> (r: RequestLabels)
        requires
            self.wf(),
            authority.wf(),
            authority@.len() > 0,
            tls.wf(),
        ensures
            r.wf(),
            r.authority@ == authority@,
            r.direction == direction,
            crate::labels::tls_parts(r.tls) == crate::labels::tls_parts(*tls),
            match dst_addr {
                Some(a) => dst_view(r.dst) == lookup(self.resolver@, a@, empty_dst_view()),
                None => dst_view(r.dst) == empty_dst_view(),
            },
    {
        let dst = match dst_addr {
            Some(a) => self.resolver.current(a),
            None => {
                let d = DstLabels::empty();
                proof {
                    assert(dst_view(d).0 =~= empty_dst_view().0);
                    assert(dst_view(d).1 =~= empty_dst_view().1);
                }
                d
            },
        };
        RequestLabels {
            authority: authority.duplicate(),
            direction,
            dst,
            tls: tls.duplicate(),
        }
    }

    /// A request was dispatched on a flow: count it under the captured
    /// label set.
    pub fn on_request(&mut self, labels: &RequestLabels)
        requires
            old(self).wf(),
            labels.wf(),
        ensures
            final(self).wf(),
            scalar_of(final(self).request_total@, request_key(*labels)) == sat_add(
                scalar_of(old(self).request_total@, request_key(*labels)),
                1,
            ),
            forall|k2: Seq<u8>|
                k2 != request_key(*labels) ==> scalar_of(final(self).request_total@, k2)
                    == scalar_of(old(self).request_total@, k2),
            final(self).response_total == old(self).response_total,
            final(self).response_latency == old(self).response_latency,
            final(self).tcp_open_total == old(self).tcp_open_total,
            final(self).tcp_close_total == old(self).tcp_close_total,
            final(self).tcp_open_connections == old(self).tcp_open_connections,
            final(self).tcp_read_bytes == old(self).tcp_read_bytes,
            final(self).tcp_write_bytes == old(self).tcp_write_bytes,
            final(self).connection_duration == old(self).connection_duration,
            final(self).resolver == old(self).resolver,
            final(self).start_time_secs == old(self).start_time_secs,
            counters_monotone(*old(self), *final(self)),
    {
        proof {
            lemma_request_key_clean(*labels);
        }
        let k = request_key_exec(labels);
        self.request_total.add(&k, 1);
    }

    /// A response ended on a flow: count it under the captured label
    /// set with its status code and classification, and observe its
    /// latency under the status code.
    pub fn on_response_end(&mut self, labels: &RequestLabels, end: &ResponseEnd, latency_ms: u64)
        requires
            old(self).wf(),
            labels.wf(),
        ensures
            final(self).wf(),
            ({
                let kr = response_key(*labels, *end);
                let kl = latency_key(*labels, status_label(*end));
                &&& scalar_of(final(self).response_total@, kr) == sat_add(
                    scalar_of(old(self).response_total@, kr),
                    1,
                )
                &&& hist_of(final(self).response_latency@, kl) == hist_observe(
                    hist_of(old(self).response_latency@, kl),
                    latency_ms,
                )
                &&& forall|k2: Seq<u8>|
                    k2 != kr ==> scalar_of(final(self).response_total@, k2) == scalar_of(
                        old(self).response_total@,
                        k2,
                    )
                &&& forall|k2: Seq<u8>|
                    k2 != kl ==> hist_of(final(self).response_latency@, k2) == hist_of(
                        old(self).response_latency@,
                        k2,
                    )
            }),
            final(self).request_total == old(self).request_total,
            final(self).tcp_open_total == old(self).tcp_open_total,
            final(self).tcp_close_total == old(self).tcp_close_total,
            final(self).tcp_open_connections == old(self).tcp_open_connections,
            final(self).tcp_read_bytes == old(self).tcp_read_bytes,
            final(self).tcp_write_bytes == old(self).tcp_write_bytes,
            final(self).connection_duration == old(self).connection_duration,
            final(self).resolver == old(self).resolver,
            final(self).start_time_secs == old(self).start_time_secs,
            counters_monotone(*old(self), *final(self)),
    {
        proof {
            lemma_response_key_clean(*labels, *end);
            lemma_latency_key_clean(*labels, status_label(*end));
        }
        let kr = response_key_exec(labels, end);
        let kl = latency_key_exec(labels, crate::classify::status_of(end));
        self.response_total.add(&kr, 1);
        self.response_latency.observe(&kl, latency_ms);
    }

    /// Service discovery pushed new labels for a destination address:
    /// replace that address's label state as a whole. No metric point
    /// moves; observations already counted keep their label sets.
    pub fn set_dst_labels(&mut self, addr: &Vec<u8>, labels: DstLabels)
        requires
            old(self).wf(),
            labels.wf(),
        ensures
            final(self).wf(),
            lookup(final(self).resolver@, addr@, empty_dst_view()) == dst_view(labels),
            forall|k: Seq<u8>|
                k != addr@ ==> lookup(final(self).resolver@, k, empty_dst_view()) == lookup(
                    old(self).resolver@,
                    k,
                    empty_dst_view(),
                ),
            final(self).request_total == old(self).request_total,
            final(self).response_total == old(self).response_total,
            final(self).response_latency == old(self).response_latency,
            final(self).tcp_open_total == old(self).tcp_open_total,
            final(self).tcp_close_total == old(self).tcp_close_total,
            final(self).tcp_open_connections == old(self).tcp_open_connections,
            final(self).tcp_read_bytes == old(self).tcp_read_bytes,
            final(self).tcp_write_bytes == old(self).tcp_write_bytes,
            final(self).connection_duration == old(self).connection_duration,
            final(self).start_time_secs == old(self).start_time_secs,
            counters_monotone(*old(self), *final(self)),
    {
        self.resolver.update(addr, labels);
    }
}

} // verus!
