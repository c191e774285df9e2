//! The scrape serializer: one coherent snapshot of the registry in the
//! Prometheus text exposition format, with gzip content negotiation.
//! The whole output is pinned byte for byte by `render_spec`, and no
//! output ever holds two commas in a row.
use vstd::prelude::*;

use crate::metrics::{bucket_bounds, bounds_vec, HistogramFamily, ScalarFamily};
use crate::telemetry::Telemetry;
use crate::text::{
    append_bytes, ascii_bytes, comma_clean, comma_free, dec_str, fmt_u64, join_commas, label_part,
    lemma_comma_free_clean, lemma_concat_comma_clean, lemma_concat_no_double_comma,
    lemma_dec_str_digits, lemma_join_commas_clean, lemma_label_part_clean, lit, lower_byte,
    name_text, no_double_comma, part_exec, to_lower, trim_back, trim_front, value_text, COMMA,
    LBRACE, NEWLINE, RBRACE, SPACE,
};

verus! {

/// A `# TYPE` header line.
pub open spec fn type_line(name: Seq<u8>, kind: Seq<u8>) -> Seq<u8> {
    ascii_bytes("# TYPE "@) + name + seq![SPACE] + kind + seq![NEWLINE]
}

/// One sample line with a label tuple.
pub open spec fn metric_line(name: Seq<u8>, key: Seq<u8>, value: nat) -> Seq<u8> {
    name + seq![LBRACE] + key + seq![RBRACE, SPACE] + dec_str(value) + seq![NEWLINE]
}

/// One sample line without labels.
pub open spec fn plain_line(name: Seq<u8>, value: nat) -> Seq<u8> {
    name + seq![SPACE] + dec_str(value) + seq![NEWLINE]
}

/// The sample lines of a counter or gauge family, in entry order.
pub open spec fn scalar_lines(name: Seq<u8>, entries: Seq<(Seq<u8>, u64)>) -> Seq<u8>
    decreases entries.len(),
{
    if entries.len() == 0 {
        Seq::empty()
    } else {
        scalar_lines(name, entries.drop_last()) + metric_line(
            name,
            entries.last().0,
            entries.last().1 as nat,
        )
    }
}

pub open spec fn render_scalar_family(
    name: Seq<u8>,
    kind: Seq<u8>,
    entries: Seq<(Seq<u8>, u64)>,
) -> Seq<u8> {
    type_line(name, kind) + scalar_lines(name, entries)
}

/// The value of the `le` label of bucket `i`: its upper bound, or
/// `+Inf` for the last bucket.
pub open spec fn le_value(i: int) -> Seq<u8> {
    if i < 25 {
        dec_str(bucket_bounds()[i] as nat)
    } else {
        ascii_bytes("+Inf"@)
    }
}

/// The label tuple of one bucket line: the histogram's tuple with the
/// bucket's `le` bound appended.
pub open spec fn bucket_key(key: Seq<u8>, i: int) -> Seq<u8> {
    key + seq![COMMA] + label_part(ascii_bytes("le"@), le_value(i))
}

/// The first `n` bucket lines of one histogram point.
pub open spec fn bucket_lines(name: Seq<u8>, key: Seq<u8>, counts: Seq<u64>, n: int) -> Seq<u8>
    decreases n,
{
    if n <= 0 {
        Seq::empty()
    } else {
        bucket_lines(name, key, counts, n - 1) + metric_line(
            name,
            bucket_key(key, n - 1),
            counts[n - 1] as nat,
        )
    }
}

/// All the lines of one histogram point: its buckets, its total count,
/// and its sum.
pub open spec fn hist_entry_lines(base: Seq<u8>, key: Seq<u8>, h: (Seq<u64>, u64)) -> Seq<u8> {
    bucket_lines(base + ascii_bytes("_bucket"@), key, h.0, 26) + metric_line(
        base + ascii_bytes("_count"@),
        key,
        h.0[25] as nat,
    ) + metric_line(base + ascii_bytes("_sum"@), key, h.1 as nat)
}

pub open spec fn hist_lines(base: Seq<u8>, entries: Seq<(Seq<u8>, (Seq<u64>, u64))>) -> Seq<u8>
    decreases entries.len(),
{
    if entries.len() == 0 {
        Seq::empty()
    } else {
        hist_lines(base, entries.drop_last()) + hist_entry_lines(
            base,
            entries.last().0,
            entries.last().1,
        )
    }
}

pub open spec fn render_hist_family(
    base: Seq<u8>,
    entries: Seq<(Seq<u8>, (Seq<u64>, u64))>,
) -> Seq<u8> {
    type_line(base, ascii_bytes("histogram"@)) + hist_lines(base, entries)
}

/// The whole scrape body: every family under its `# TYPE` line, then
/// the process start time.
pub open spec fn render_spec(t: Telemetry) -> Seq<u8> {
    render_scalar_family(ascii_bytes("request_total"@), ascii_bytes("counter"@), t.request_total@)
        + render_scalar_family(
        ascii_bytes("response_total"@),
        ascii_bytes("counter"@),
        t.response_total@,
    ) + render_hist_family(ascii_bytes("response_latency_ms"@), t.response_latency@)
        + render_scalar_family(
        ascii_bytes("tcp_open_total"@),
        ascii_bytes("counter"@),
        t.tcp_open_total@,
    ) + render_scalar_family(
        ascii_bytes("tcp_close_total"@),
        ascii_bytes("counter"@),
        t.tcp_close_total@,
    ) + render_scalar_family(
        ascii_bytes("tcp_open_connections"@),
        ascii_bytes("gauge"@),
        t.tcp_open_connections@,
    ) + render_scalar_family(
        ascii_bytes("tcp_read_bytes_total"@),
        ascii_bytes("counter"@),
        t.tcp_read_bytes@,
    ) + render_scalar_family(
        ascii_bytes("tcp_write_bytes_total"@),
        ascii_bytes("counter"@),
        t.tcp_write_bytes@,
    ) + render_hist_family(ascii_bytes("tcp_connection_duration_ms"@), t.connection_duration@)
        + type_line(ascii_bytes("process_start_time_seconds"@), ascii_bytes("gauge"@))
        + plain_line(ascii_bytes("process_start_time_seconds"@), t.start_time_secs as nat)
}

proof fn ascii_comma_free(s: Seq<char>)
    requires
        forall|i: int| 0 <= i < s.len() ==> #[trigger] s[i] as u8 != COMMA,
    ensures
        comma_free(ascii_bytes(s)),
{
    assert forall|i: int| 0 <= i < ascii_bytes(s).len() implies ascii_bytes(s)[i] != COMMA by {
        assert(ascii_bytes(s)[i] == s[i] as u8);
    }
}

/// The fixed metric names and kind words hold no comma.
proof fn lemma_render_literals()
    ensures
        comma_free(ascii_bytes("request_total"@)) && ascii_bytes("request_total"@).len() > 0,
        comma_free(ascii_bytes("response_total"@)) && ascii_bytes("response_total"@).len() > 0,
        comma_free(ascii_bytes("response_latency_ms"@)) && ascii_bytes(
            "response_latency_ms"@,
        ).len() > 0,
        comma_free(ascii_bytes("tcp_open_total"@)) && ascii_bytes("tcp_open_total"@).len() > 0,
        comma_free(ascii_bytes("tcp_close_total"@)) && ascii_bytes("tcp_close_total"@).len() > 0,
        comma_free(ascii_bytes("tcp_open_connections"@)) && ascii_bytes(
            "tcp_open_connections"@,
        ).len() > 0,
        comma_free(ascii_bytes("tcp_read_bytes_total"@)) && ascii_bytes(
            "tcp_read_bytes_total"@,
        ).len() > 0,
        comma_free(ascii_bytes("tcp_write_bytes_total"@)) && ascii_bytes(
            "tcp_write_bytes_total"@,
        ).len() > 0,
        comma_free(ascii_bytes("tcp_connection_duration_ms"@)) && ascii_bytes(
            "tcp_connection_duration_ms"@,
        ).len() > 0,
        comma_free(ascii_bytes("process_start_time_seconds"@)) && ascii_bytes(
            "process_start_time_seconds"@,
        ).len() > 0,
        comma_free(ascii_bytes("counter"@)) && ascii_bytes("counter"@).len() > 0,
        comma_free(ascii_bytes("gauge"@)) && ascii_bytes("gauge"@).len() > 0,
        comma_free(ascii_bytes("histogram"@)) && ascii_bytes("histogram"@).len() > 0,
        comma_free(ascii_bytes("# TYPE "@)) && ascii_bytes("# TYPE "@).len() > 0,
        comma_free(ascii_bytes("_bucket"@)),
        comma_free(ascii_bytes("_count"@)),
        comma_free(ascii_bytes("_sum"@)),
        value_text(ascii_bytes("+Inf"@)) && comma_free(ascii_bytes("+Inf"@)),
{
    reveal_strlit("request_total");
    reveal_strlit("response_total");
    reveal_strlit("response_latency_ms");
    reveal_strlit("tcp_open_total");
    reveal_strlit("tcp_close_total");
    reveal_strlit("tcp_open_connections");
    reveal_strlit("tcp_read_bytes_total");
    reveal_strlit("tcp_write_bytes_total");
    reveal_strlit("tcp_connection_duration_ms");
    reveal_strlit("process_start_time_seconds");
    reveal_strlit("counter");
    reveal_strlit("gauge");
    reveal_strlit("histogram");
    reveal_strlit("# TYPE ");
    reveal_strlit("_bucket");
    reveal_strlit("_count");
    reveal_strlit("_sum");
    reveal_strlit("+Inf");
    ascii_comma_free("request_total"@);
    ascii_comma_free("response_total"@);
    ascii_comma_free("response_latency_ms"@);
    ascii_comma_free("tcp_open_total"@);
    ascii_comma_free("tcp_close_total"@);
    ascii_comma_free("tcp_open_connections"@);
    ascii_comma_free("tcp_read_bytes_total"@);
    ascii_comma_free("tcp_write_bytes_total"@);
    ascii_comma_free("tcp_connection_duration_ms"@);
    ascii_comma_free("process_start_time_seconds"@);
    ascii_comma_free("counter"@);
    ascii_comma_free("gauge"@);
    ascii_comma_free("histogram"@);
    ascii_comma_free("# TYPE "@);
    ascii_comma_free("_bucket"@);
    ascii_comma_free("_count"@);
    ascii_comma_free("_sum"@);
    ascii_comma_free("+Inf"@);
    assert forall|i: int| 0 <= i < ascii_bytes("+Inf"@).len() implies crate::text::value_byte(
        #[trigger] ascii_bytes("+Inf"@)[i],
    ) by {
        assert(ascii_bytes("+Inf"@)[i] == "+Inf"@[i] as u8);
    }
}

proof fn lemma_comma_free_concat(a: Seq<u8>, b: Seq<u8>)
    requires
        comma_free(a),
        comma_free(b),
    ensures
        comma_free(a + b),
{
    assert forall|i: int| 0 <= i < (a + b).len() implies (a + b)[i] != COMMA by {
        if i < a.len() {
            assert((a + b)[i] == a[i]);
        } else {
            assert((a + b)[i] == b[i - a.len()]);
        }
    }
}

proof fn lemma_type_line_clean(name: Seq<u8>, kind: Seq<u8>)
    requires
        comma_free(name),
        comma_free(kind),
    ensures
        comma_clean(type_line(name, kind)),
{
    lemma_render_literals();
    lemma_comma_free_concat(ascii_bytes("# TYPE "@), name);
    lemma_comma_free_concat(ascii_bytes("# TYPE "@) + name, seq![SPACE]);
    lemma_comma_free_concat(ascii_bytes("# TYPE "@) + name + seq![SPACE], kind);
    lemma_comma_free_concat(ascii_bytes("# TYPE "@) + name + seq![SPACE] + kind, seq![NEWLINE]);
    assert(type_line(name, kind).len() > 0);
    lemma_comma_free_clean(type_line(name, kind));
}

proof fn lemma_metric_line_clean(name: Seq<u8>, key: Seq<u8>, value: nat)
    requires
        comma_free(name),
        name.len() > 0,
        comma_clean(key),
    ensures
        comma_clean(metric_line(name, key, value)),
{
    lemma_dec_str_digits(value);
    lemma_comma_free_clean(name);
    lemma_concat_comma_clean(name, seq![LBRACE]);
    lemma_concat_comma_clean(name + seq![LBRACE], key);
    lemma_concat_comma_clean(name + seq![LBRACE] + key, seq![RBRACE, SPACE]);
    lemma_concat_comma_clean(name + seq![LBRACE] + key + seq![RBRACE, SPACE], dec_str(value));
    lemma_concat_comma_clean(
        name + seq![LBRACE] + key + seq![RBRACE, SPACE] + dec_str(value),
        seq![NEWLINE],
    );
    assert(metric_line(name, key, value) == name + seq![LBRACE] + key + seq![RBRACE, SPACE]
        + dec_str(value) + seq![NEWLINE]);
}

proof fn lemma_plain_line_clean(name: Seq<u8>, value: nat)
    requires
        comma_free(name),
        name.len() > 0,
    ensures
        comma_clean(plain_line(name, value)),
{
    lemma_dec_str_digits(value);
    lemma_comma_free_clean(name);
    lemma_concat_comma_clean(name, seq![SPACE]);
    lemma_concat_comma_clean(name + seq![SPACE], dec_str(value));
    lemma_concat_comma_clean(name + seq![SPACE] + dec_str(value), seq![NEWLINE]);
}

proof fn lemma_scalar_lines_clean(name: Seq<u8>, entries: Seq<(Seq<u8>, u64)>)
    requires
        comma_free(name),
        name.len() > 0,
        crate::metrics::keys_clean(entries),
    ensures
        entries.len() > 0 ==> comma_clean(scalar_lines(name, entries)),
        no_double_comma(scalar_lines(name, entries)),
    decreases entries.len(),
{
    if entries.len() > 0 {
        let front = entries.drop_last();
        assert(crate::metrics::keys_clean(front)) by {
            assert forall|i: int| 0 <= i < front.len() implies comma_clean(
                (#[trigger] front[i]).0,
            ) by {
                assert(front[i] == entries[i]);
            }
        }
        lemma_scalar_lines_clean(name, front);
        assert(comma_clean(entries.last().0)) by {
            assert(entries[entries.len() - 1].0 == entries.last().0);
        }
        lemma_metric_line_clean(name, entries.last().0, entries.last().1 as nat);
        if front.len() > 0 {
            lemma_concat_comma_clean(
                scalar_lines(name, front),
                metric_line(name, entries.last().0, entries.last().1 as nat),
            );
        } else {
            assert(scalar_lines(name, entries) =~= metric_line(
                name,
                entries.last().0,
                entries.last().1 as nat,
            ));
        }
    }
}

proof fn lemma_scalar_family_clean(name: Seq<u8>, kind: Seq<u8>, entries: Seq<(Seq<u8>, u64)>)
    requires
        comma_free(name),
        name.len() > 0,
        comma_free(kind),
        crate::metrics::keys_clean(entries),
    ensures
        comma_clean(render_scalar_family(name, kind, entries)),
{
    lemma_type_line_clean(name, kind);
    lemma_scalar_lines_clean(name, entries);
    if entries.len() > 0 {
        lemma_concat_comma_clean(type_line(name, kind), scalar_lines(name, entries));
    } else {
        assert(render_scalar_family(name, kind, entries) =~= type_line(name, kind));
    }
}

proof fn lemma_bucket_key_clean(key: Seq<u8>, i: int)
    requires
        comma_clean(key),
        0 <= i <= 25,
    ensures
        comma_clean(bucket_key(key, i)),
{
    crate::labels::lemma_label_literals();
    assert(value_text(le_value(i))) by {
        if i < 25 {
            crate::labels::lemma_dec_value_text(bucket_bounds()[i] as nat);
        } else {
            lemma_render_literals();
        }
    }
    let p = label_part(ascii_bytes("le"@), le_value(i));
    lemma_label_part_clean(ascii_bytes("le"@), le_value(i));
    let two = seq![key, p];
    assert forall|a: int| 0 <= a < two.len() implies comma_clean(#[trigger] two[a]) by {}
    lemma_join_commas_clean(two);
    assert(join_commas(two) == join_commas(two.drop_last()) + seq![COMMA] + two.last());
    assert(two.drop_last() =~= seq![key]);
    assert(join_commas(seq![key]) == key);
    assert(bucket_key(key, i) == join_commas(two));
}

proof fn lemma_hist_entry_clean(base: Seq<u8>, key: Seq<u8>, h: (Seq<u64>, u64))
    requires
        comma_free(base),
        base.len() > 0,
        comma_clean(key),
        h.0.len() == 26,
    ensures
        comma_clean(hist_entry_lines(base, key, h)),
{
    lemma_render_literals();
    lemma_comma_free_concat(base, ascii_bytes("_bucket"@));
    lemma_comma_free_concat(base, ascii_bytes("_count"@));
    lemma_comma_free_concat(base, ascii_bytes("_sum"@));
    let bname = base + ascii_bytes("_bucket"@);
    assert(comma_clean(bucket_lines(bname, key, h.0, 26))) by {
        lemma_bucket_lines_clean(bname, key, h.0, 26);
    }
    lemma_metric_line_clean(base + ascii_bytes("_count"@), key, h.0[25] as nat);
    lemma_metric_line_clean(base + ascii_bytes("_sum"@), key, h.1 as nat);
    lemma_concat_comma_clean(
        bucket_lines(bname, key, h.0, 26),
        metric_line(base + ascii_bytes("_count"@), key, h.0[25] as nat),
    );
    lemma_concat_comma_clean(
        bucket_lines(bname, key, h.0, 26) + metric_line(
            base + ascii_bytes("_count"@),
            key,
            h.0[25] as nat,
        ),
        metric_line(base + ascii_bytes("_sum"@), key, h.1 as nat),
    );
}

proof fn lemma_bucket_lines_clean(name: Seq<u8>, key: Seq<u8>, counts: Seq<u64>, n: int)
    requires
        comma_free(name),
        name.len() > 0,
        comma_clean(key),
        1 <= n <= 26,
    ensures
        comma_clean(bucket_lines(name, key, counts, n)),
    decreases n,
{
    lemma_bucket_key_clean(key, n - 1);
    lemma_metric_line_clean(name, bucket_key(key, n - 1), counts[n - 1] as nat);
    if n == 1 {
        assert(bucket_lines(name, key, counts, 0) =~= Seq::<u8>::empty());
        assert(bucket_lines(name, key, counts, 1) =~= metric_line(
            name,
            bucket_key(key, 0),
            counts[0] as nat,
        ));
    } else {
        lemma_bucket_lines_clean(name, key, counts, n - 1);
        lemma_concat_comma_clean(
            bucket_lines(name, key, counts, n - 1),
            metric_line(name, bucket_key(key, n - 1), counts[n - 1] as nat),
        );
    }
}

proof fn lemma_hist_lines_clean(base: Seq<u8>, entries: Seq<(Seq<u8>, (Seq<u64>, u64))>)
    requires
        comma_free(base),
        base.len() > 0,
        crate::metrics::keys_clean(entries),
        crate::metrics::hists_wf(entries),
    ensures
        entries.len() > 0 ==> comma_clean(hist_lines(base, entries)),
        no_double_comma(hist_lines(base, entries)),
    decreases entries.len(),
{
    if entries.len() > 0 {
        let front = entries.drop_last();
        assert(crate::metrics::keys_clean(front) && crate::metrics::hists_wf(front)) by {
            assert forall|i: int| 0 <= i < front.len() implies comma_clean(
                (#[trigger] front[i]).0,
            ) && crate::metrics::hist_wf(front[i].1) by {
                assert(front[i] == entries[i]);
            }
        }
        lemma_hist_lines_clean(base, front);
        assert(comma_clean(entries.last().0) && crate::metrics::hist_wf(entries.last().1)) by {
            assert(entries[entries.len() - 1] == entries.last());
        }
        lemma_hist_entry_clean(base, entries.last().0, entries.last().1);
        if front.len() > 0 {
            lemma_concat_comma_clean(
                hist_lines(base, front),
                hist_entry_lines(base, entries.last().0, entries.last().1),
            );
        } else {
            assert(hist_lines(base, entries) =~= hist_entry_lines(
                base,
                entries.last().0,
                entries.last().1,
            ));
        }
    }
}

proof fn lemma_hist_family_clean(base: Seq<u8>, entries: Seq<(Seq<u8>, (Seq<u64>, u64))>)
    requires
        comma_free(base),
        base.len() > 0,
        crate::metrics::keys_clean(entries),
        crate::metrics::hists_wf(entries),
    ensures
        comma_clean(render_hist_family(base, entries)),
{
    lemma_render_literals();
    lemma_type_line_clean(base, ascii_bytes("histogram"@));
    lemma_hist_lines_clean(base, entries);
    if entries.len() > 0 {
        lemma_concat_comma_clean(
            type_line(base, ascii_bytes("histogram"@)),
            hist_lines(base, entries),
        );
    } else {
        assert(render_hist_family(base, entries) =~= type_line(base, ascii_bytes("histogram"@)));
    }
}

/// No scrape output ever holds two commas in a row.
pub proof fn lemma_render_no_double_comma(t: Telemetry)
    requires
        t.wf(),
    ensures
        no_double_comma(render_spec(t)),
{
    lemma_render_literals();
    let f1 = render_scalar_family(
        ascii_bytes("request_total"@),
        ascii_bytes("counter"@),
        t.request_total@,
    );
    let f2 = render_scalar_family(
        ascii_bytes("response_total"@),
        ascii_bytes("counter"@),
        t.response_total@,
    );
    let f3 = render_hist_family(ascii_bytes("response_latency_ms"@), t.response_latency@);
    let f4 = render_scalar_family(
        ascii_bytes("tcp_open_total"@),
        ascii_bytes("counter"@),
        t.tcp_open_total@,
    );
    let f5 = render_scalar_family(
        ascii_bytes("tcp_close_total"@),
        ascii_bytes("counter"@),
        t.tcp_close_total@,
    );
    let f6 = render_scalar_family(
        ascii_bytes("tcp_open_connections"@),
        ascii_bytes("gauge"@),
        t.tcp_open_connections@,
    );
    let f7 = render_scalar_family(
        ascii_bytes("tcp_read_bytes_total"@),
        ascii_bytes("counter"@),
        t.tcp_read_bytes@,
    );
    let f8 = render_scalar_family(
        ascii_bytes("tcp_write_bytes_total"@),
        ascii_bytes("counter"@),
        t.tcp_write_bytes@,
    );
    let f9 = render_hist_family(ascii_bytes("tcp_connection_duration_ms"@), t.connection_duration@);
    let f10 = type_line(ascii_bytes("process_start_time_seconds"@), ascii_bytes("gauge"@));
    let f11 = plain_line(ascii_bytes("process_start_time_seconds"@), t.start_time_secs as nat);
    lemma_scalar_family_clean(
        ascii_bytes("request_total"@),
        ascii_bytes("counter"@),
        t.request_total@,
    );
    lemma_scalar_family_clean(
        ascii_bytes("response_total"@),
        ascii_bytes("counter"@),
        t.response_total@,
    );
    lemma_hist_family_clean(ascii_bytes("response_latency_ms"@), t.response_latency@);
    lemma_scalar_family_clean(
        ascii_bytes("tcp_open_total"@),
        ascii_bytes("counter"@),
        t.tcp_open_total@,
    );
    lemma_scalar_family_clean(
        ascii_bytes("tcp_close_total"@),
        ascii_bytes("counter"@),
        t.tcp_close_total@,
    );
    lemma_scalar_family_clean(
        ascii_bytes("tcp_open_connections"@),
        ascii_bytes("gauge"@),
        t.tcp_open_connections@,
    );
    lemma_scalar_family_clean(
        ascii_bytes("tcp_read_bytes_total"@),
        ascii_bytes("counter"@),
        t.tcp_read_bytes@,
    );
    lemma_scalar_family_clean(
        ascii_bytes("tcp_write_bytes_total"@),
        ascii_bytes("counter"@),
        t.tcp_write_bytes@,
    );
    lemma_hist_family_clean(ascii_bytes("tcp_connection_duration_ms"@), t.connection_duration@);
    lemma_type_line_clean(ascii_bytes("process_start_time_seconds"@), ascii_bytes("gauge"@));
    lemma_plain_line_clean(ascii_bytes("process_start_time_seconds"@), t.start_time_secs as nat);
    lemma_concat_comma_clean(f1, f2);
    lemma_concat_comma_clean(f1 + f2, f3);
    lemma_concat_comma_clean(f1 + f2 + f3, f4);
    lemma_concat_comma_clean(f1 + f2 + f3 + f4, f5);
    lemma_concat_comma_clean(f1 + f2 + f3 + f4 + f5, f6);
    lemma_concat_comma_clean(f1 + f2 + f3 + f4 + f5 + f6, f7);
    lemma_concat_comma_clean(f1 + f2 + f3 + f4 + f5 + f6 + f7, f8);
    lemma_concat_comma_clean(f1 + f2 + f3 + f4 + f5 + f6 + f7 + f8, f9);
    lemma_concat_comma_clean(f1 + f2 + f3 + f4 + f5 + f6 + f7 + f8 + f9, f10);
    lemma_concat_comma_clean(f1 + f2 + f3 + f4 + f5 + f6 + f7 + f8 + f9 + f10, f11);
    assert(render_spec(t) == f1 + f2 + f3 + f4 + f5 + f6 + f7 + f8 + f9 + f10 + f11);
}

fn emit_type_line(out: &mut Vec<u8>, name: &Vec<u8>, kind: &Vec<u8>)
    ensures
        final(out)@ == old(out)@ + type_line(name@, kind@),
{
    proof {
        reveal_strlit("# TYPE ");
    }
    let head = lit("# TYPE ");
    append_bytes(out, &head);
    append_bytes(out, name);
    out.push(SPACE);
    append_bytes(out, kind);
    out.push(NEWLINE);
    proof {
        assert(out@ =~= old(out)@ + type_line(name@, kind@));
    }
}

fn emit_metric_line(out: &mut Vec<u8>, name: &Vec<u8>, key: &Vec<u8>, value: u64)
    ensures
        final(out)@ == old(out)@ + metric_line(name@, key@, value as nat),
{
    append_bytes(out, name);
    out.push(LBRACE);
    append_bytes(out, key);
    out.push(RBRACE);
    out.push(SPACE);
    let v = fmt_u64(value);
    append_bytes(out, &v);
    out.push(NEWLINE);
    proof {
        assert(out@ =~= old(out)@ + metric_line(name@, key@, value as nat));
    }
}

fn emit_plain_line(out: &mut Vec<u8>, name: &Vec<u8>, value: u64)
    ensures
        final(out)@ == old(out)@ + plain_line(name@, value as nat),
{
    append_bytes(out, name);
    out.push(SPACE);
    let v = fmt_u64(value);
    append_bytes(out, &v);
    out.push(NEWLINE);
    proof {
        assert(out@ =~= old(out)@ + plain_line(name@, value as nat));
    }
}

fn emit_scalar_family(out: &mut Vec<u8>, name: &Vec<u8>, kind: &Vec<u8>, fam: &ScalarFamily)
    ensures
        final(out)@ == old(out)@ + render_scalar_family(name@, kind@, fam@),
{
    emit_type_line(out, name, kind);
    let ghost start = out@;
    let n = fam.len();
    let mut j: usize = 0;
    while j < n
        invariant
            j <= n,
            n == fam@.len(),
            out@ == start + scalar_lines(name@, fam@.subrange(0, j as int)),
        decreases n - j,
    {
        let key = fam.key_at(j);
        let value = fam.value_at(j);
        emit_metric_line(out, name, key, value);
        proof {
            assert(fam@.subrange(0, j + 1).drop_last() =~= fam@.subrange(0, j as int));
            assert(fam@.subrange(0, j + 1).last() == fam@[j as int]);
            assert(out@ =~= start + scalar_lines(name@, fam@.subrange(0, j + 1)));
        }
        j += 1;
    }
    proof {
        assert(fam@.subrange(0, fam@.len() as int) =~= fam@);
    }
}

fn emit_hist_family(out: &mut Vec<u8>, base: &Vec<u8>, fam: &HistogramFamily)
    requires
        fam.wf(),
    ensures
        final(out)@ == old(out)@ + render_hist_family(base@, fam@),
{
    proof {
        reveal_strlit("histogram");
        reveal_strlit("_bucket");
        reveal_strlit("_count");
        reveal_strlit("_sum");
        reveal_strlit("le");
        reveal_strlit("+Inf");
    }
    let kind = lit("histogram");
    emit_type_line(out, base, &kind);
    let mut bucket_name = crate::text::clone_bytes(base);
    append_bytes(&mut bucket_name, &lit("_bucket"));
    let mut count_name = crate::text::clone_bytes(base);
    append_bytes(&mut count_name, &lit("_count"));
    let mut sum_name = crate::text::clone_bytes(base);
    append_bytes(&mut sum_name, &lit("_sum"));
    let le_key = lit("le");
    let bounds = bounds_vec();
    let ghost start = out@;
    let n = fam.len();
    let mut j: usize = 0;
    while j < n
        invariant
            j <= n,
            n == fam@.len(),
            fam.wf(),
            bucket_name@ == base@ + ascii_bytes("_bucket"@),
            count_name@ == base@ + ascii_bytes("_count"@),
            sum_name@ == base@ + ascii_bytes("_sum"@),
            le_key@ == ascii_bytes("le"@),
            bounds@ == bucket_bounds(),
            out@ == start + hist_lines(base@, fam@.subrange(0, j as int)),
        decreases n - j,
    {
        let ghost entry_start = out@;
        let key = fam.key_at(j);
        let mut i: usize = 0;
        while i < 26
            invariant
                i <= 26,
                j < n,
                n == fam@.len(),
                fam.wf(),
                bucket_name@ == base@ + ascii_bytes("_bucket"@),
                le_key@ == ascii_bytes("le"@),
                bounds@ == bucket_bounds(),
                key@ == fam@[j as int].0,
                out@ == entry_start + bucket_lines(
                    base@ + ascii_bytes("_bucket"@),
                    fam@[j as int].0,
                    fam@[j as int].1.0,
                    i as int,
                ),
            decreases 26 - i,
        {
            proof {
                reveal_strlit("+Inf");
            }
            let le_val = if i < 25 {
                fmt_u64(bounds[i])
            } else {
                lit("+Inf")
            };
            proof {
                assert(le_val@ == le_value(i as int));
            }
            let p = part_exec(&le_key, &le_val);
            let mut bk = crate::text::clone_bytes(key);
            bk.push(COMMA);
            append_bytes(&mut bk, &p);
            proof {
                assert(bk@ =~= bucket_key(fam@[j as int].0, i as int));
            }
            let c = fam.bucket_count_at(j, i);
            emit_metric_line(out, &bucket_name, &bk, c);
            i += 1;
        }
        let c = fam.bucket_count_at(j, 25);
        emit_metric_line(out, &count_name, key, c);
        let s = fam.sum_at(j);
        emit_metric_line(out, &sum_name, key, s);
        proof {
            assert(crate::metrics::hist_wf(fam@[j as int].1));
            assert(out@ =~= entry_start + hist_entry_lines(base@, fam@[j as int].0, fam@[
                j as int].1));
            assert(fam@.subrange(0, j + 1).drop_last() =~= fam@.subrange(0, j as int));
            assert(fam@.subrange(0, j + 1).last() == fam@[j as int]);
            assert(out@ =~= start + hist_lines(base@, fam@.subrange(0, j + 1)));
        }
        j += 1;
    }
    proof {
        assert(fam@.subrange(0, fam@.len() as int) =~= fam@);
    }
}

/// Serialize the whole registry as the Prometheus text format. The
/// output is exactly `render_spec` of the current state, and holds no
/// double comma.
pub fn render_body(t: &Telemetry) -> (r: Vec<u8>)
    requires
        t.wf(),
    ensures
        r@ == render_spec(*t),
        no_double_comma(r@),
{
    proof {
        reveal_strlit("request_total");
        reveal_strlit("response_total");
        reveal_strlit("response_latency_ms");
        reveal_strlit("tcp_open_total");
        reveal_strlit("tcp_close_total");
        reveal_strlit("tcp_open_connections");
        reveal_strlit("tcp_read_bytes_total");
        reveal_strlit("tcp_write_bytes_total");
        reveal_strlit("tcp_connection_duration_ms");
        reveal_strlit("process_start_time_seconds");
        reveal_strlit("counter");
        reveal_strlit("gauge");
    }
    let counter = lit("counter");
    let gauge = lit("gauge");
    let mut out: Vec<u8> = Vec::new();
    emit_scalar_family(&mut out, &lit("request_total"), &counter, &t.request_total);
    emit_scalar_family(&mut out, &lit("response_total"), &counter, &t.response_total);
    emit_hist_family(&mut out, &lit("response_latency_ms"), &t.response_latency);
    emit_scalar_family(&mut out, &lit("tcp_open_total"), &counter, &t.tcp_open_total);
    emit_scalar_family(&mut out, &lit("tcp_close_total"), &counter, &t.tcp_close_total);
    emit_scalar_family(&mut out, &lit("tcp_open_connections"), &gauge, &t.tcp_open_connections);
    emit_scalar_family(&mut out, &lit("tcp_read_bytes_total"), &counter, &t.tcp_read_bytes);
    emit_scalar_family(&mut out, &lit("tcp_write_bytes_total"), &counter, &t.tcp_write_bytes);
    emit_hist_family(&mut out, &lit("tcp_connection_duration_ms"), &t.connection_duration);
    let pst = lit("process_start_time_seconds");
    emit_type_line(&mut out, &pst, &gauge);
    emit_plain_line(&mut out, &pst, t.start_time_secs);
    proof {
        assert(out@ =~= render_spec(*t));
        lemma_render_no_double_comma(*t);
    }
    out
}

/// The segment, with surrounding padding removed, is the token `gzip`
/// in any letter case.
pub open spec fn gzip_token(s: Seq<u8>) -> bool {
    let t = trim_back(trim_front(s));
    &&& t.len() == 4
    &&& lower_byte(t[0]) == 103
    &&& lower_byte(t[1]) == 122
    &&& lower_byte(t[2]) == 105
    &&& lower_byte(t[3]) == 112
}

/// One comma-separated element of a header value.
pub open spec fn is_element(s: Seq<u8>, i: int, j: int) -> bool {
    &&& 0 <= i <= j <= s.len()
    &&& (i == 0 || s[i - 1] == COMMA)
    &&& (j == s.len() || s[j] == COMMA)
    &&& forall|k: int| i <= k < j ==> s[k] != COMMA
}

/// The header lists `gzip` among its comma-separated elements, in any
/// letter case and position.
pub open spec fn accepts_gzip(s: Seq<u8>) -> bool {
    exists|i: int, j: int| #![trigger s.subrange(i, j)] is_element(s, i, j) && gzip_token(s.subrange(i, j))
}

/// Decide whether an `Accept-Encoding` value asks for gzip.
pub fn accepts_gzip_exec(header: &Vec<u8>) -> (r: bool)
    ensures
        r == accepts_gzip(header@),
{
    let ghost s = header@;
    let n = header.len();
    let mut seg_start: usize = 0;
    let mut j: usize = 0;
    while j <= n
        invariant
            seg_start <= j,
            n == s.len(),
            s == header@,
            j <= n,
            seg_start == 0 || s[seg_start - 1] == COMMA,
            forall|k: int| seg_start <= k < j && k < n ==> s[k] != COMMA,
            forall|i2: int, j2: int|
                #![trigger s.subrange(i2, j2)]
                is_element(s, i2, j2) && j2 < seg_start ==> !gzip_token(s.subrange(i2, j2)),
        decreases n + 1 - j,
    {
        let at_end = j == n;
        if at_end || header[j] == COMMA {
            let mut a = seg_start;
            while a < j && (header[a] == 32 || header[a] == 9)
                invariant
                    seg_start <= a <= j,
                    j <= n,
                    n == s.len(),
                    s == header@,
                    trim_front(s.subrange(seg_start as int, j as int)) == trim_front(
                        s.subrange(a as int, j as int),
                    ),
                decreases j - a,
            {
                proof {
                    assert(s.subrange(a as int, j as int).drop_first() =~= s.subrange(
                        a + 1,
                        j as int,
                    ));
                }
                a += 1;
            }
            proof {
                assert(trim_front(s.subrange(a as int, j as int)) == s.subrange(
                    a as int,
                    j as int,
                ));
            }
            let mut b = j;
            while b > a && (header[b - 1] == 32 || header[b - 1] == 9)
                invariant
                    a <= b,
                    b <= j,
                    j <= n,
                    n == s.len(),
                    s == header@,
                    trim_back(s.subrange(a as int, j as int)) == trim_back(
                        s.subrange(a as int, b as int),
                    ),
                decreases b,
            {
                proof {
                    assert(s.subrange(a as int, b as int).drop_last() =~= s.subrange(
                        a as int,
                        b - 1,
                    ));
                }
                b -= 1;
            }
            proof {
                assert(trim_back(s.subrange(a as int, b as int)) == s.subrange(a as int, b as int));
            }
            let ghost token = trim_back(trim_front(s.subrange(seg_start as int, j as int)));
            proof {
                assert(token == s.subrange(a as int, b as int));
            }
            if b - a == 4 {
                let c0 = to_lower(header[a]);
                let c1 = to_lower(header[a + 1]);
                let c2 = to_lower(header[a + 2]);
                let c3 = to_lower(header[a + 3]);
                if c0 == 103 && c1 == 122 && c2 == 105 && c3 == 112 {
                    proof {
                        assert(token[0] == s[a as int]);
                        assert(token[1] == s[a + 1]);
                        assert(token[2] == s[a + 2]);
                        assert(token[3] == s[a + 3]);
                        assert(gzip_token(s.subrange(seg_start as int, j as int)));
                        assert(is_element(s, seg_start as int, j as int));
                    }
                    return true;
                }
            }
            proof {
                assert(!gzip_token(s.subrange(seg_start as int, j as int))) by {
                    if token.len() == 4 {
                        assert(token[0] == s[a as int]);
                        assert(token[1] == s[a + 1]);
                        assert(token[2] == s[a + 2]);
                        assert(token[3] == s[a + 3]);
                    }
                }
                assert forall|i2: int, j2: int|
                    #![trigger s.subrange(i2, j2)]
                    is_element(s, i2, j2) && j2 <= j implies !gzip_token(s.subrange(i2, j2)) by {
                    if j2 >= seg_start {
                        assert(j2 <= j);
                        if j2 < j {
                            assert(j2 == s.len() || s[j2] == COMMA);
                            assert(j2 < n);
                            assert(s[j2] != COMMA);
                        } else {
                            assert(j2 == j);
                            if i2 < seg_start {
                                assert(seg_start > 0);
                                assert(s[seg_start - 1] == COMMA);
                                assert(i2 <= seg_start - 1 < j2);
                                assert(s[seg_start - 1] != COMMA);
                            } else if i2 > seg_start {
                                assert(s[i2 - 1] == COMMA);
                                assert(seg_start <= i2 - 1 < j);
                                assert(s[i2 - 1] != COMMA);
                            } else {
                                assert(s.subrange(i2, j2) == s.subrange(
                                    seg_start as int,
                                    j as int,
                                ));
                            }
                        }
                    }
                }
            }
            if at_end {
                proof {
                    assert forall|i2: int, j2: int|
                        #![trigger s.subrange(i2, j2)]
                        is_element(s, i2, j2) implies !gzip_token(s.subrange(i2, j2)) by {
                        assert(j2 <= s.len());
                    }
                }
                return false;
            }
            seg_start = j + 1;
        }
        j += 1;
    }
    false
}

/// What decompressing a byte string with flate2's `read::GzDecoder`
/// yields: the original bytes for a well-formed gzip stream, nothing
/// otherwise.
pub uninterp spec fn gunzip_of(b: Seq<u8>) -> Option<Seq<u8>>;

/// Relies on flate2's `write::GzEncoder`: the stream it produces for
/// the written bytes decompresses, with flate2's `read::GzDecoder`, to
/// exactly those bytes.
#[verifier::external_body]
fn gzip_compress(data: &Vec<u8>) -> (r: Vec<u8>)
    ensures
        gunzip_of(r@) == Some(data@),
{
    let mut enc = flate2::write::GzEncoder::new(Vec::new(), flate2::Compression::default());
    std::io::Write::write_all(&mut enc, data.as_slice()).expect("writing to a memory buffer");
    enc.finish().expect("finishing into a memory buffer")
}

/// One scrape response: the fixed content type, the negotiated content
/// encoding, and the body.
pub struct ScrapeResponse {
    pub content_type: Vec<u8>,
    pub content_encoding: Option<Vec<u8>>,
    pub body: Vec<u8>,
}

/// Whether a request with this `Accept-Encoding` header gets gzip.
pub open spec fn wants_gzip(accept_encoding: Option<Seq<u8>>) -> bool {
    match accept_encoding {
        Some(h) => accepts_gzip(h),
        None => false,
    }
}

/// Serve one scrape: the Prometheus text body, gzip-compressed exactly
/// when the `Accept-Encoding` header lists gzip, in which case the
/// compressed body decompresses to the same bytes as the plain form.
pub fn render(t: &Telemetry, accept_encoding: Option<&Vec<u8>>) -> (r: ScrapeResponse)
    requires
        t.wf(),
    ensures
        r.content_type@ == ascii_bytes("text/plain; version=0.0.4"@),
        ({
            let wants = wants_gzip(
                match accept_encoding {
                    Some(h) => Some(h@),
                    None => None,
                },
            );
            if wants {
                &&& (match r.content_encoding {
                    Some(e) => e@ == ascii_bytes("gzip"@),
                    None => false,
                })
                &&& gunzip_of(r.body@) == Some(render_spec(*t))
            } else {
                &&& r.content_encoding is None
                &&& r.body@ == render_spec(*t)
                &&& no_double_comma(r.body@)
            }
        }),
{
    proof {
        reveal_strlit("text/plain; version=0.0.4");
        reveal_strlit("gzip");
    }
    let body = render_body(t);
    let content_type = lit("text/plain; version=0.0.4");
    let gz = match accept_encoding {
        Some(h) => accepts_gzip_exec(h),
        None => false,
    };
    if gz {
        ScrapeResponse {
            content_type,
            content_encoding: Some(lit("gzip")),
            body: gzip_compress(&body),
        }
    } else {
        ScrapeResponse { content_type, content_encoding: None, body }
    }
}

} // verus!
