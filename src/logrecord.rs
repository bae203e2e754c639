//! Record types, the extractor that turns lines into blocks of samples, and the
//! blocks themselves. Numbers are fixed-point: see `fixed`.
use vstd::prelude::*;
use std::sync::Arc;
use crate::fixed::{
    BOUND, SCALE, decimal_units, time_units, widen, scaled, clamped, parse_decimal, parse_time,
    scale_value, clamp_value,
};
use crate::pattern::{Pattern, regex_captures, regex_accepts, group, text_view, captures_named};
use crate::text::{all_distinct, first_index_from};

verus! {

/// A sample: (timestamp relative to the baseline, value), both fixed-point.
pub type FieldSample = (i64, i64);

/// Largest value of the fallback block counter: its timestamps stay within `BOUND`.
pub const COUNTER_MAX: u64 = 1_000_000_000_000;

/// Name of the group holding a timestamp in plain seconds.
pub open spec fn ts_name() -> Seq<char> {
    seq!['t', 's']
}

/// Name of the group holding a timestamp written `[+-]H:MM:SS[.frac]`.
pub open spec fn time_ts_name() -> Seq<char> {
    seq!['t', 'i', 'm', 'e', '_', 't', 's']
}

/// Timestamp groups are never read as ordinary fields.
pub open spec fn is_reserved(name: Seq<char>) -> bool {
    name == ts_name() || name == time_ts_name()
}

pub open spec fn views(v: Seq<String>) -> Seq<Seq<char>> {
    v.map_values(|s: String| s@)
}

/// A declared field: what extraction reads of it and what is shown of it.
pub struct FieldModel {
    pub name: Seq<char>,
    pub axis: Option<u8>,
    pub style: Option<Seq<char>>,
    /// Fixed-point coefficient (one whole unit when none is configured).
    pub coef: int,
    /// The configured limits, as given.
    pub ylim: Option<Seq<int>>,
    /// The range values are clamped to: the limits when there are two of them.
    pub clamp: Option<(int, int)>,
}

pub open spec fn int_seq(v: Seq<i64>) -> Seq<int> {
    v.map_values(|x: i64| x as int)
}

/// The field declared with these settings: no coefficient means one whole unit, and
/// limits clamp only when there are exactly two of them.
pub open spec fn field_spec(
    name: Seq<char>,
    axis: Option<u8>,
    style: Option<Seq<char>>,
    coef: Option<int>,
    ylim: Option<Seq<int>>,
) -> FieldModel {
    FieldModel {
        name,
        axis,
        style,
        coef: match coef {
            Some(c) => c,
            None => SCALE as int,
        },
        ylim,
        clamp: match ylim {
            Some(v) => if v.len() == 2 {
                Some((v[0], v[1]))
            } else {
                None
            },
            None => None,
        },
    }
}

pub open spec fn widen_seq(o: Option<Vec<i64>>) -> Option<Seq<int>> {
    match o {
        Some(v) => Some(int_seq(v@)),
        None => None,
    }
}

/// What extraction needs to know of a record type.
pub struct RecordModel {
    pub source: Seq<char>,
    pub fields: Seq<FieldModel>,
}

/// The value stored for a raw value `v` of field `f`: scaled by its coefficient, then
/// clamped to its range when one is configured.
pub open spec fn field_value(f: FieldModel, v: int) -> int {
    let x = scaled(v, f.coef);
    match f.clamp {
        Some(r) => clamped(x, r.0, r.1),
        None => x,
    }
}

/// The texts a match gives a record type with these fields: the `ts` group, the `time_ts`
/// group, then one per field, each `None` when its group took no part.
pub open spec fn captures_of(m: Map<Seq<char>, Seq<char>>, fields: Seq<FieldModel>) -> Seq<
    Option<Seq<char>>,
> {
    seq![group(m, ts_name()), group(m, time_ts_name())] + fields.map_values(
        |f: FieldModel| group(m, f.name),
    )
}

/// The timestamp of a match: the `ts` text read as a decimal, else the `time_ts` text
/// read as a duration, else none.
pub open spec fn resolve_ts(caps: Seq<Option<Seq<char>>>) -> Option<int> {
    match caps[0] {
        Some(t) => decimal_units(t),
        None => match caps[1] {
            Some(t) => time_units(t),
            None => None,
        },
    }
}

/// The state of extraction part way through a batch of lines.
pub struct ExtractState {
    /// Field names of the block, in order of first declaration.
    pub names: Seq<Seq<char>>,
    /// Samples in the order they were taken: (index into `names`, relative timestamp, value).
    pub samples: Seq<(int, int, int)>,
    /// The first timestamp ever resolved.
    pub baseline: Option<int>,
    /// Largest relative timestamp among the samples taken with a timestamp.
    pub max_ts: Option<int>,
    /// Lines matched by at least one record type (saturating).
    pub count: nat,
    pub matched: bool,
    /// Whether the line being worked through has been matched yet.
    pub line_matched: bool,
}

pub open spec fn add_name(names: Seq<Seq<char>>, n: Seq<char>) -> Seq<Seq<char>> {
    if first_index_from(names, n, 0) < names.len() {
        names
    } else {
        names.push(n)
    }
}

/// `names` with the names of the first `k` fields added where missing.
pub open spec fn declare_upto(names: Seq<Seq<char>>, fields: Seq<FieldModel>, k: int) -> Seq<
    Seq<char>,
>
    decreases k,
{
    if k <= 0 {
        names
    } else {
        add_name(declare_upto(names, fields, k - 1), fields[k - 1].name)
    }
}

pub open spec fn unwrap_or_zero(o: Option<int>) -> int {
    match o {
        Some(x) => x,
        None => 0,
    }
}

pub open spec fn max_with(o: Option<int>, x: int) -> int {
    match o {
        Some(y) => if y > x { y } else { x },
        None => x,
    }
}

/// One field of a matched line: a field that is not reserved, whose group took part and
/// reads as a decimal, gets a sample at the match's timestamp relative to the baseline
/// (raw 0 when the match has none).
pub open spec fn step_field(
    st: ExtractState,
    f: FieldModel,
    capture: Option<Seq<char>>,
    ts: Option<int>,
) -> ExtractState {
    if is_reserved(f.name) {
        st
    } else {
        match capture {
            None => st,
            Some(text) => match decimal_units(text) {
                None => st,
                Some(v) => {
                    let idx = first_index_from(st.names, f.name, 0);
                    if idx < st.names.len() {
                        let rel = unwrap_or_zero(ts) - unwrap_or_zero(st.baseline);
                        ExtractState {
                            samples: st.samples.push((idx, rel, field_value(f, v))),
                            max_ts: if ts is Some {
                                Some(max_with(st.max_ts, rel))
                            } else {
                                st.max_ts
                            },
                            ..st
                        }
                    } else {
                        st
                    }
                },
            },
        }
    }
}

/// The first `k` fields of a matched line, in declaration order.
pub open spec fn extract_upto(
    st: ExtractState,
    fields: Seq<FieldModel>,
    caps: Seq<Option<Seq<char>>>,
    ts: Option<int>,
    k: int,
) -> ExtractState
    decreases k,
{
    if k <= 0 {
        st
    } else {
        step_field(extract_upto(st, fields, caps, ts, k - 1), fields[k - 1], caps[k + 1], ts)
    }
}

/// The state once a match of a record type with these fields has been noted, its fields
/// declared and the baseline fixed.
pub open spec fn enter_match(
    st: ExtractState,
    fields: Seq<FieldModel>,
    caps: Seq<Option<Seq<char>>>,
) -> ExtractState {
    ExtractState {
        names: declare_upto(st.names, fields, fields.len() as int),
        matched: true,
        line_matched: true,
        baseline: if st.baseline is None {
            resolve_ts(caps)
        } else {
            st.baseline
        },
        ..st
    }
}

/// A match of a record type with these fields, given the texts of its groups (see
/// `captures_of`): noted, fields declared, baseline fixed, then each field in order.
pub open spec fn apply_match(
    st: ExtractState,
    fields: Seq<FieldModel>,
    caps: Seq<Option<Seq<char>>>,
) -> ExtractState {
    extract_upto(
        enter_match(st, fields, caps),
        fields,
        caps,
        resolve_ts(caps),
        fields.len() as int,
    )
}

/// One record type tried on one line.
pub open spec fn step_record(st: ExtractState, rec: RecordModel, line: Seq<char>) -> ExtractState {
    match regex_captures(rec.source, line) {
        None => st,
        Some(m) => apply_match(st, rec.fields, captures_of(m, rec.fields)),
    }
}

/// The first `k` record types tried on one line, in order.
pub open spec fn step_records(st: ExtractState, recs: Seq<RecordModel>, line: Seq<char>, k: int) -> ExtractState
    decreases k,
{
    if k <= 0 {
        st
    } else {
        step_record(step_records(st, recs, line, k - 1), recs[k - 1], line)
    }
}

/// The state as a new line begins: it is not matched yet.
pub open spec fn begin_line(st: ExtractState) -> ExtractState {
    ExtractState { line_matched: false, ..st }
}

/// The state as a line ends: a line that some record type matched is counted once.
pub open spec fn end_line(st: ExtractState) -> ExtractState {
    ExtractState {
        count: if st.line_matched && st.count < usize::MAX {
            st.count + 1
        } else {
            st.count
        },
        ..st
    }
}

/// The first `k` lines, each tried against every record type.
pub open spec fn run_lines(st: ExtractState, recs: Seq<RecordModel>, lines: Seq<Seq<char>>, k: int) -> ExtractState
    decreases k,
{
    if k <= 0 {
        st
    } else {
        let prev = run_lines(st, recs, lines, k - 1);
        end_line(step_records(begin_line(prev), recs, lines[k - 1], recs.len() as int))
    }
}

/// The state at the start of a batch, given the baseline fixed so far.
pub open spec fn start_state(baseline: Option<int>) -> ExtractState {
    ExtractState {
        names: Seq::empty(),
        samples: Seq::empty(),
        baseline,
        max_ts: None,
        count: 0,
        matched: false,
        line_matched: false,
    }
}

/// The timestamp of a block: the largest sample timestamp, or else the fallback counter
/// in whole units.
pub open spec fn block_ts(st: ExtractState, counter: nat) -> int {
    match st.max_ts {
        Some(t) => t,
        None => counter * SCALE,
    }
}

/// Declaring fields keeps every name already present at its place and makes every
/// declared name present.
proof fn lemma_declare_contains(names: Seq<Seq<char>>, fields: Seq<FieldModel>, k: int)
    requires
        0 <= k <= fields.len(),
    ensures
        forall|j: int|
            0 <= j < k ==> #[trigger] first_index_from(
                declare_upto(names, fields, k),
                fields[j].name,
                0,
            ) < declare_upto(names, fields, k).len(),
    decreases k,
{
    if k > 0 {
        lemma_declare_contains(names, fields, k - 1);
        let d = declare_upto(names, fields, k - 1);
        let n = fields[k - 1].name;
        crate::text::lemma_first_index_bounds(d, n, 0);
        assert forall|j: int| 0 <= j < k implies #[trigger] first_index_from(
            declare_upto(names, fields, k),
            fields[j].name,
            0,
        ) < declare_upto(names, fields, k).len() by {
            crate::text::lemma_first_index_push(d, n, fields[j].name, 0);
            crate::text::lemma_first_index_bounds(d, fields[j].name, 0);
        }
    }
}

/// Extracting more fields keeps the names, the baseline and the samples already taken.
proof fn lemma_extract_keeps(
    st: ExtractState,
    fields: Seq<FieldModel>,
    m: Seq<Option<Seq<char>>>,
    ts: Option<int>,
    k1: int,
    k2: int,
)
    requires
        0 <= k1 <= k2,
    ensures
        extract_upto(st, fields, m, ts, k2).names == st.names,
        extract_upto(st, fields, m, ts, k2).baseline == st.baseline,
        extract_upto(st, fields, m, ts, k1).samples.len() <= extract_upto(
            st,
            fields,
            m,
            ts,
            k2,
        ).samples.len(),
        extract_upto(st, fields, m, ts, k2).samples.take(
            extract_upto(st, fields, m, ts, k1).samples.len() as int,
        ) == extract_upto(st, fields, m, ts, k1).samples,
    decreases k2,
{
    if k2 > k1 {
        lemma_extract_keeps(st, fields, m, ts, k1, k2 - 1);
        let a = extract_upto(st, fields, m, ts, k1).samples;
        let p = extract_upto(st, fields, m, ts, k2 - 1).samples;
        let q = extract_upto(st, fields, m, ts, k2).samples;
        if q != p {
            assert(q.take(a.len() as int) =~= p.take(a.len() as int));
        }
    } else if k2 > 0 {
        lemma_extract_keeps(st, fields, m, ts, k2 - 1, k2 - 1);
        assert(extract_upto(st, fields, m, ts, k2).samples.take(
            extract_upto(st, fields, m, ts, k2).samples.len() as int,
        ) =~= extract_upto(st, fields, m, ts, k2).samples);
    } else {
        assert(st.samples.take(st.samples.len() as int) =~= st.samples);
    }
}

/// A match of a record type (with the texts `caps` of its groups, see `captures_of`) that
/// resolves a timestamp `t`, and a field whose text reads as the decimal `v`, yields a
/// sample of that field whose value is `v` scaled by the field's coefficient and clamped
/// to its range, and whose timestamp is `t` minus the baseline: the first timestamp ever
/// resolved (`t` itself when none was before).
pub proof fn lemma_sample_of_match(
    st: ExtractState,
    fields: Seq<FieldModel>,
    caps: Seq<Option<Seq<char>>>,
    k: int,
)
    requires
        caps.len() == fields.len() + 2,
        resolve_ts(caps) is Some,
        0 <= k < fields.len(),
        !is_reserved(fields[k].name),
        caps[k + 2] is Some,
        decimal_units(caps[k + 2]->0) is Some,
    ensures
        ({
            let t = resolve_ts(caps)->0;
            let v = decimal_units(caps[k + 2]->0)->0;
            let b = match st.baseline {
                Some(b) => b,
                None => t,
            };
            let out = apply_match(st, fields, caps);
            let idx = first_index_from(out.names, fields[k].name, 0);
            &&& out.baseline == Some(b)
            &&& idx < out.names.len()
            &&& out.names[idx] == fields[k].name
            &&& exists|i: int|
                st.samples.len() <= i < out.samples.len() && #[trigger] out.samples[i] == (
                    idx,
                    t - b,
                    field_value(fields[k], v),
                )
        }),
{
    let ts = resolve_ts(caps);
    let e = enter_match(st, fields, caps);
    let n = fields.len() as int;
    lemma_declare_contains(st.names, fields, n);
    assert(first_index_from(e.names, fields[k].name, 0) < e.names.len());
    crate::text::lemma_first_index_bounds(e.names, fields[k].name, 0);
    lemma_extract_keeps(e, fields, caps, ts, 0, k);
    lemma_extract_keeps(e, fields, caps, ts, 0, k + 1);
    lemma_extract_keeps(e, fields, caps, ts, k + 1, n);
    let before = extract_upto(e, fields, caps, ts, k);
    let after = extract_upto(e, fields, caps, ts, k + 1);
    let out = extract_upto(e, fields, caps, ts, n);
    let i = before.samples.len() as int;
    assert(after.samples == before.samples.push(after.samples[i]));
    assert(out.samples.take(after.samples.len() as int)[i] == out.samples[i]);
    lemma_extract_keeps(e, fields, caps, ts, 0, 0);
    assert(st.samples.len() <= i);
}

/// `b` keeps what `a` holds: its names and samples as prefixes, and its baseline once set.
pub open spec fn extends(a: ExtractState, b: ExtractState) -> bool {
    &&& a.names.len() <= b.names.len()
    &&& b.names.take(a.names.len() as int) == a.names
    &&& a.samples.len() <= b.samples.len()
    &&& b.samples.take(a.samples.len() as int) == a.samples
    &&& (a.baseline is Some ==> b.baseline == a.baseline)
}

proof fn lemma_extends_refl(a: ExtractState)
    ensures
        extends(a, a),
{
    assert(a.names.take(a.names.len() as int) =~= a.names);
    assert(a.samples.take(a.samples.len() as int) =~= a.samples);
}

proof fn lemma_extends_trans(a: ExtractState, b: ExtractState, c: ExtractState)
    requires
        extends(a, b),
        extends(b, c),
    ensures
        extends(a, c),
{
    assert(c.names.take(a.names.len() as int) =~= c.names.take(b.names.len() as int).take(
        a.names.len() as int,
    ));
    assert(c.samples.take(a.samples.len() as int) =~= c.samples.take(
        b.samples.len() as int,
    ).take(a.samples.len() as int));
}

proof fn lemma_declare_extends(names: Seq<Seq<char>>, fields: Seq<FieldModel>, k: int)
    ensures
        names.len() <= declare_upto(names, fields, k).len(),
        declare_upto(names, fields, k).take(names.len() as int) == names,
    decreases k,
{
    if k > 0 {
        lemma_declare_extends(names, fields, k - 1);
        let d = declare_upto(names, fields, k - 1);
        assert(d.push(fields[k - 1].name).take(names.len() as int) =~= d.take(names.len() as int));
    } else {
        assert(names.take(names.len() as int) =~= names);
    }
}

proof fn lemma_apply_match_extends(
    st: ExtractState,
    fields: Seq<FieldModel>,
    caps: Seq<Option<Seq<char>>>,
)
    ensures
        extends(st, apply_match(st, fields, caps)),
{
    let e = enter_match(st, fields, caps);
    lemma_declare_extends(st.names, fields, fields.len() as int);
    assert(st.samples.take(st.samples.len() as int) =~= st.samples);
    lemma_extract_keeps(e, fields, caps, resolve_ts(caps), 0, fields.len() as int);
    lemma_extract_keeps(e, fields, caps, resolve_ts(caps), 0, 0);
}

proof fn lemma_step_records_extends(
    st: ExtractState,
    recs: Seq<RecordModel>,
    line: Seq<char>,
    k1: int,
    k2: int,
)
    requires
        0 <= k1 <= k2,
    ensures
        extends(step_records(st, recs, line, k1), step_records(st, recs, line, k2)),
    decreases k2,
{
    if k2 > k1 {
        lemma_step_records_extends(st, recs, line, k1, k2 - 1);
        let prev = step_records(st, recs, line, k2 - 1);
        match regex_captures(recs[k2 - 1].source, line) {
            Some(m) => lemma_apply_match_extends(prev, recs[k2 - 1].fields, captures_of(
                m,
                recs[k2 - 1].fields,
            )),
            None => lemma_extends_refl(prev),
        }
        lemma_extends_trans(
            step_records(st, recs, line, k1),
            prev,
            step_records(st, recs, line, k2),
        );
    } else {
        lemma_extends_refl(step_records(st, recs, line, k1));
    }
}

proof fn lemma_line_steps_extend(a: ExtractState)
    ensures
        extends(a, begin_line(a)),
        extends(a, end_line(a)),
{
    lemma_extends_refl(a);
}

proof fn lemma_run_lines_extends(
    st: ExtractState,
    recs: Seq<RecordModel>,
    lines: Seq<Seq<char>>,
    k1: int,
    k2: int,
)
    requires
        0 <= k1 <= k2,
    ensures
        extends(run_lines(st, recs, lines, k1), run_lines(st, recs, lines, k2)),
    decreases k2,
{
    if k2 > k1 {
        lemma_run_lines_extends(st, recs, lines, k1, k2 - 1);
        let prev = run_lines(st, recs, lines, k2 - 1);
        let begun = begin_line(prev);
        let done = step_records(begun, recs, lines[k2 - 1], recs.len() as int);
        lemma_line_steps_extend(prev);
        lemma_line_steps_extend(done);
        lemma_step_records_extends(begun, recs, lines[k2 - 1], 0, recs.len() as int);
        lemma_extends_trans(prev, begun, done);
        lemma_extends_trans(prev, done, end_line(done));
        lemma_extends_trans(run_lines(st, recs, lines, k1), prev, run_lines(st, recs, lines, k2));
    } else {
        lemma_extends_refl(run_lines(st, recs, lines, k1));
    }
}

/// A name found in a prefix is found at the same place in the whole.
proof fn lemma_first_index_prefix(a: Seq<Seq<char>>, b: Seq<Seq<char>>, x: Seq<char>)
    requires
        a.len() <= b.len(),
        b.take(a.len() as int) == a,
        first_index_from(a, x, 0) < a.len(),
    ensures
        first_index_from(b, x, 0) == first_index_from(a, x, 0),
{
    crate::text::lemma_first_index_bounds(a, x, 0);
    crate::text::lemma_first_index_bounds(b, x, 0);
    let ia = first_index_from(a, x, 0);
    let ib = first_index_from(b, x, 0);
    assert(b[ia] == b.take(a.len() as int)[ia]);
    if ib < ia {
        assert(b[ib] == b.take(a.len() as int)[ib]);
    }
}

/// Over a whole batch (the terms `LogParser::parse` states its block in): when line `li`
/// is matched by record type `ri` with a resolved timestamp `t`, and its field `k` reads as
/// the decimal `v`, the block holds a sample of that field (at its place among the block's
/// names) whose value is `v` scaled and clamped, and whose timestamp is `t` minus the
/// baseline. The baseline is the first timestamp ever resolved: one fixed before the batch
/// stays, and it is never replaced.
pub proof fn lemma_batch_sample(
    base: Option<int>,
    recs: Seq<RecordModel>,
    lines: Seq<Seq<char>>,
    li: int,
    ri: int,
    k: int,
)
    requires
        0 <= li < lines.len(),
        0 <= ri < recs.len(),
        regex_captures(recs[ri].source, lines[li]) is Some,
        ({
            let caps = captures_of(regex_captures(recs[ri].source, lines[li])->0, recs[ri].fields);
            &&& resolve_ts(caps) is Some
            &&& 0 <= k < recs[ri].fields.len()
            &&& !is_reserved(recs[ri].fields[k].name)
            &&& caps[k + 2] is Some
            &&& decimal_units(caps[k + 2]->0) is Some
        }),
    ensures
        ({
            let f = recs[ri].fields[k];
            let caps = captures_of(regex_captures(recs[ri].source, lines[li])->0, recs[ri].fields);
            let t = resolve_ts(caps)->0;
            let v = decimal_units(caps[k + 2]->0)->0;
            let fin = run_lines(start_state(base), recs, lines, lines.len() as int);
            let idx = first_index_from(fin.names, f.name, 0);
            &&& fin.baseline is Some
            &&& (base is Some ==> fin.baseline == base)
            &&& idx < fin.names.len()
            &&& fin.names[idx] == f.name
            &&& exists|i: int|
                0 <= i < fin.samples.len() && #[trigger] fin.samples[i] == (
                    idx,
                    t - fin.baseline->0,
                    field_value(f, v),
                )
        }),
{
    let rec = recs[ri];
    let line = lines[li];
    let m = regex_captures(rec.source, line)->0;
    let caps = captures_of(m, rec.fields);
    assert(caps.len() == rec.fields.len() + 2);
    let st0 = start_state(base);
    let before = run_lines(st0, recs, lines, li);
    let s = begin_line(before);
    lemma_line_steps_extend(before);
    let t_state = step_records(s, recs, line, ri);
    let u = step_records(s, recs, line, ri + 1);
    assert(u == apply_match(t_state, rec.fields, caps));
    lemma_sample_of_match(t_state, rec.fields, caps, k);
    lemma_step_records_extends(s, recs, line, ri + 1, recs.len() as int);
    let done = step_records(s, recs, line, recs.len() as int);
    let v1 = run_lines(st0, recs, lines, li + 1);
    assert(v1 == end_line(done));
    lemma_line_steps_extend(done);
    lemma_extends_trans(u, done, v1);
    lemma_run_lines_extends(st0, recs, lines, li + 1, lines.len() as int);
    let fin = run_lines(st0, recs, lines, lines.len() as int);
    lemma_extends_trans(u, v1, fin);
    lemma_run_lines_extends(st0, recs, lines, 0, li);
    lemma_extends_trans(run_lines(st0, recs, lines, 0), before, s);
    lemma_step_records_extends(s, recs, line, 0, ri);
    lemma_extends_trans(run_lines(st0, recs, lines, 0), s, t_state);
    let f = rec.fields[k];
    let idx = first_index_from(u.names, f.name, 0);
    crate::text::lemma_first_index_bounds(u.names, f.name, 0);
    lemma_first_index_prefix(u.names, fin.names, f.name);
    assert(fin.names[idx] == fin.names.take(u.names.len() as int)[idx]);
    let i = choose|i: int|
        t_state.samples.len() <= i < u.samples.len() && #[trigger] u.samples[i] == (
            idx,
            resolve_ts(caps)->0 - u.baseline->0,
            field_value(f, decimal_units(caps[k + 2]->0)->0),
        );
    assert(fin.samples[i] == fin.samples.take(u.samples.len() as int)[i]);
}

/// A declared output field of a record type. `coef` is a fixed-point factor; `ylim`, when
/// it has two elements, is the `[min, max]` range values are clamped to.
pub struct LogRecordField {
    pub name: String,
    pub axis: Option<u8>,
    pub style: Option<String>,
    pub coef: Option<i64>,
    pub ylim: Option<Vec<i64>>,
}

impl LogRecordField {
    pub open spec fn model(&self) -> FieldModel {
        field_spec(
            self.name@,
            self.axis,
            text_view(self.style),
            widen(self.coef),
            widen_seq(self.ylim),
        )
    }

    pub fn new(
        name: String,
        axis: Option<u8>,
        style: Option<&str>,
        coef: Option<i64>,
        ylim: Option<Vec<i64>>,
    ) -> (r: LogRecordField)
        ensures
            r.name == name,
            r.axis == axis,
            text_view(r.style) == match style {
                Some(s) => Some(s@),
                None => None::<Seq<char>>,
            },
            r.coef == coef,
            r.ylim == ylim,
    {
        let style = match style {
            Some(s) => Some(s.to_string()),
            None => None,
        };
        LogRecordField { name, axis, style, coef, ylim }
    }

    /// The stored value for a raw value `v`: scaled by `coef` (one unit when absent), then
    /// clamped to `ylim` when it has two elements.
    pub fn value_of(&self, v: i64) -> (r: i64)
        requires
            -BOUND <= v <= BOUND,
        ensures
            r == field_value(self.model(), v as int),
    {
        let c = match self.coef {
            Some(c) => c,
            None => SCALE,
        };
        let x = scale_value(v, c);
        match &self.ylim {
            Some(lim) => if lim.len() == 2 {
                clamp_value(x, lim[0], lim[1])
            } else {
                x
            },
            None => x,
        }
    }
}

pub open spec fn field_names_of(fs: Seq<FieldModel>) -> Seq<Seq<char>> {
    fs.map_values(|f: FieldModel| f.name)
}

pub open spec fn field_models(fs: Seq<LogRecordField>) -> Seq<FieldModel> {
    fs.map_values(|f: LogRecordField| f.model())
}

/// A record type: a pattern and the fields read from its named groups.
pub struct LogRecordType {
    name: String,
    pattern: Pattern,
    fields: Vec<LogRecordField>,
    /// Group names asked of each match: `ts`, `time_ts`, then one per field.
    groups: Vec<String>,
}

impl LogRecordType {
    pub closed spec fn model(&self) -> RecordModel {
        RecordModel { source: self.pattern@, fields: field_models(self.fields@) }
    }

    pub closed spec fn name_view(&self) -> Seq<char> {
        self.name@
    }

    /// Names of the declared fields, in declaration order.
    pub closed spec fn field_names(&self) -> Seq<Seq<char>> {
        self.fields@.map_values(|f: LogRecordField| f.name@)
    }

    pub closed spec fn wf(&self) -> bool {
        &&& self.groups@.len() == self.fields@.len() + 2
        &&& self.groups@[0]@ == ts_name()
        &&& self.groups@[1]@ == time_ts_name()
        &&& forall|i: int|
            0 <= i < self.fields@.len() ==> #[trigger] self.groups@[i + 2]@
                == self.fields@[i].name@
        &&& forall|i: int, j: int|
            0 <= i < j < self.fields@.len() ==> self.fields@[i].name@ != self.fields@[j].name@
    }

    /// A record type named `name` with pattern `regex` and no fields yet; an error when the
    /// pattern does not compile.
    pub fn new(name: &str, regex: &str) -> (r: Result<LogRecordType, ConfigError>)
        ensures
            r is Ok <==> regex_accepts(regex@),
            r matches Ok(t) ==> {
                &&& t.wf()
                &&& t.name_view() == name@
                &&& t.model() == (RecordModel { source: regex@, fields: Seq::empty() })
            },
            r matches Err(e) ==> e is InvalidPattern,
    {
        match Pattern::new(regex) {
            Ok(pattern) => {
                let mut groups: Vec<String> = Vec::new();
                let ts = String::from_str("ts");
                let time_ts = String::from_str("time_ts");
                proof {
                    reveal_strlit("ts");
                    reveal_strlit("time_ts");
                }
                groups.push(ts);
                groups.push(time_ts);
                let t = LogRecordType {
                    name: name.to_string(),
                    pattern,
                    fields: Vec::new(),
                    groups,
                };
                proof {
                    assert(field_models(t.fields@) =~= Seq::<FieldModel>::empty());
                    assert(t.groups@[0]@ == ts_name());
                    assert(t.groups@[1]@ == time_ts_name());
                    assert(t.name_view() == name@);
                    assert(t.model() == (RecordModel { source: regex@, fields: Seq::empty() }));
                }
                Ok(t)
            },
            Err(e) => Err(ConfigError::InvalidPattern(e)),
        }
    }

    pub fn name(&self) -> (r: &str)
        ensures
            r@ == self.name_view(),
    {
        self.name.as_str()
    }

    /// The groups asked of each match, in the order `BlockBuilder::add_match` takes their
    /// texts: `ts`, `time_ts`, then one per field.
    pub fn group_names(&self) -> (r: &Vec<String>)
        requires
            self.wf(),
        ensures
            views(r@) == seq![ts_name(), time_ts_name()] + field_names_of(self.model().fields),
    {
        proof {
            let want = seq![ts_name(), time_ts_name()] + field_names_of(self.model().fields);
            assert forall|i: int| 0 <= i < self.groups@.len() implies #[trigger] views(
                self.groups@,
            )[i] == want[i] by {
                if i >= 2 {
                    assert(self.groups@[(i - 2) + 2]@ == self.fields@[i - 2].name@);
                }
            }
            assert(views(self.groups@) =~= want);
        }
        &self.groups
    }

    pub fn fields(&self) -> (r: &Vec<LogRecordField>)
        ensures
            field_models(r@) == self.model().fields,
    {
        &self.fields
    }

    /// Declares the field `legend`; a field already declared under that name is replaced
    /// in place, a new one goes last.
    pub fn add_field(
        &mut self,
        legend: &str,
        axis: Option<u8>,
        style: Option<&str>,
        coef: Option<i64>,
        ylim: Option<Vec<i64>>,
    )
        requires
            old(self).wf(),
        ensures
            final(self).wf(),
            final(self).name_view() == old(self).name_view(),
            final(self).model().source == old(self).model().source,
            ({
                let f = field_spec(
                    legend@,
                    axis,
                    match style {
                        Some(st) => Some(st@),
                        None => None,
                    },
                    widen(coef),
                    widen_seq(ylim),
                );
                let old_fields = old(self).model().fields;
                let k = first_index_from(field_names_of(old(self).model().fields), legend@, 0);
                if k < old_fields.len() {
                    final(self).model().fields == old_fields.update(k, f)
                } else {
                    final(self).model().fields == old_fields.push(f)
                }
            }),
    {
        let field = LogRecordField::new(legend.to_string(), axis, style, coef, ylim);
        let ghost fm = field.model();
        let ghost names = self.field_names();
        proof {
            assert(names =~= field_names_of(self.model().fields));
        }
        let legend_s = legend.to_string();
        let mut k: usize = 0;
        while k < self.fields.len() && self.fields[k].name != legend_s
            invariant
                legend_s@ == legend@,
                self.groups@.len() == self.fields@.len() + 2,
                k <= self.fields@.len(),
                names == self.field_names(),
                first_index_from(names, legend@, 0) == first_index_from(names, legend@, k as int),
            decreases self.fields.len() - k,
        {
            proof {
                assert(names[k as int] == self.fields@[k as int].name@);
                crate::text::lemma_first_index_step(names, legend@, k as int);
            }
            k = k + 1;
        }
        proof {
            if k < self.fields.len() {
                assert(names[k as int] == legend@);
            }
        }
        let group_name = field.name.clone();
        let glen = self.groups.len();
        if k < self.fields.len() {
            assert(k + 2 < glen);
            self.fields.set(k, field);
            self.groups.set(k + 2, group_name);
            proof {
                assert(field_models(self.fields@) =~= field_models(old(self).fields@).update(
                    k as int,
                    fm,
                ));
                assert forall|i: int, j: int|
                    0 <= i < j < self.fields@.len() implies self.fields@[i].name@
                    != self.fields@[j].name@ by {
                    if i != k && j != k {
                        assert(old(self).fields@[i].name@ != old(self).fields@[j].name@);
                    } else if i == k {
                        assert(old(self).fields@[i].name@ != old(self).fields@[j].name@);
                    } else {
                        assert(old(self).fields@[i].name@ != old(self).fields@[j].name@);
                    }
                }
                assert forall|i: int| 0 <= i < self.fields@.len() implies #[trigger] self.groups@[i
                    + 2]@ == self.fields@[i].name@ by {
                    if i != k {
                        assert(old(self).groups@[i + 2]@ == old(self).fields@[i].name@);
                    }
                }
            }
        } else {
            self.fields.push(field);
            self.groups.push(group_name);
            proof {
                crate::text::lemma_first_index_bounds(names, legend@, 0);
                assert(field_models(self.fields@) =~= field_models(old(self).fields@).push(fm));
                assert forall|i: int, j: int|
                    0 <= i < j < self.fields@.len() implies self.fields@[i].name@
                    != self.fields@[j].name@ by {
                    if j == k {
                        assert(names[i] == old(self).fields@[i].name@);
                    } else {
                        assert(old(self).fields@[i].name@ != old(self).fields@[j].name@);
                    }
                }
                assert forall|i: int| 0 <= i < self.fields@.len() implies #[trigger] self.groups@[i
                    + 2]@ == self.fields@[i].name@ by {
                    if i != k {
                        assert(old(self).groups@[i + 2]@ == old(self).fields@[i].name@);
                    }
                }
            }
        }
    }
}

pub open spec fn record_models(rs: Seq<LogRecordType>) -> Seq<RecordModel> {
    rs.map_values(|r: LogRecordType| r.model())
}

/// The record types of a configuration, one per name, in the order they were added.
pub struct LogRecordsConfig {
    records: Vec<LogRecordType>,
    title: String,
}

impl LogRecordsConfig {
    pub closed spec fn model(&self) -> Seq<RecordModel> {
        record_models(self.records@)
    }

    pub closed spec fn title_view(&self) -> Seq<char> {
        self.title@
    }

    pub closed spec fn record_names(&self) -> Seq<Seq<char>> {
        self.records@.map_values(|r: LogRecordType| r.name_view())
    }

    /// Every record type is well formed, and no two share a name.
    pub closed spec fn wf(&self) -> bool {
        &&& forall|i: int| 0 <= i < self.records@.len() ==> #[trigger] self.records@[i].wf()
        &&& all_distinct(self.record_names())
    }

    pub fn new(title: String) -> (r: LogRecordsConfig)
        ensures
            r.wf(),
            r.model() == Seq::<RecordModel>::empty(),
            r.record_names() == Seq::<Seq<char>>::empty(),
            r.model().len() == r.record_names().len(),
            r.title_view() == title@,
    {
        let r = LogRecordsConfig { records: Vec::new(), title };
        proof {
            assert(r.record_names() =~= Seq::<Seq<char>>::empty());
            assert(record_models(r.records@) =~= Seq::<RecordModel>::empty());
        }
        r
    }

    /// Adds a record type; one already present under the same name is replaced in place.
    pub fn insert(&mut self, record: LogRecordType)
        requires
            old(self).wf(),
            record.wf(),
        ensures
            final(self).wf(),
            final(self).title_view() == old(self).title_view(),
            final(self).model().len() == final(self).record_names().len(),
            ({
                let k = first_index_from(old(self).record_names(), record.name_view(), 0);
                if k < old(self).model().len() {
                    &&& final(self).model() == old(self).model().update(k, record.model())
                    &&& final(self).record_names() == old(self).record_names().update(
                        k,
                        record.name_view(),
                    )
                } else {
                    &&& final(self).model() == old(self).model().push(record.model())
                    &&& final(self).record_names() == old(self).record_names().push(
                        record.name_view(),
                    )
                }
            }),
    {
        let ghost names = self.record_names();
        let ghost rn = record.name_view();
        let ghost rm = record.model();
        let mut k: usize = 0;
        while k < self.records.len() && self.records[k].name != record.name
            invariant
                k <= self.records@.len(),
                names == self.record_names(),
                first_index_from(names, record.name_view(), 0) == first_index_from(
                    names,
                    record.name_view(),
                    k as int,
                ),
            decreases self.records.len() - k,
        {
            proof {
                assert(names[k as int] == self.records@[k as int].name_view());
                crate::text::lemma_first_index_step(names, record.name_view(), k as int);
            }
            k = k + 1;
        }
        proof {
            if k < self.records.len() {
                assert(names[k as int] == record.name_view());
            }
        }
        if k < self.records.len() {
            self.records.set(k, record);
            proof {
                assert(record_models(self.records@) =~= record_models(old(self).records@).update(
                    k as int,
                    rm,
                ));
                assert(self.record_names() =~= names.update(k as int, rn));
                assert(names.update(k as int, rn) =~= names);
                assert forall|i: int| 0 <= i < self.records@.len() implies #[trigger] self.records@[
                    i].wf() by {
                    if i != k {
                        assert(old(self).records@[i].wf());
                    }
                }
            }
        } else {
            self.records.push(record);
            proof {
                assert(record_models(self.records@) =~= record_models(old(self).records@).push(rm));
                assert(self.record_names() =~= names.push(rn));
                crate::text::lemma_first_index_bounds(names, rn, 0);
                assert forall|a: int, b: int|
                    0 <= a < b < names.push(rn).len() implies names.push(rn)[a] != names.push(
                    rn,
                )[b] by {
                    assert(names.push(rn)[a] == names[a]);
                    if b < names.len() {
                        assert(names.push(rn)[b] == names[b]);
                    }
                }
                assert forall|i: int| 0 <= i < self.records@.len() implies #[trigger] self.records@[
                    i].wf() by {
                    if i < old(self).records@.len() {
                        assert(old(self).records@[i].wf());
                    }
                }
            }
        }
    }

    pub fn title(&self) -> (r: &str)
        ensures
            r@ == self.title_view(),
    {
        self.title.as_str()
    }

    pub fn records(&self) -> (r: &Vec<LogRecordType>)
        ensures
            record_models(r@) == self.model(),
    {
        &self.records
    }
}

pub open spec fn sample_views(v: Seq<(usize, i64, i64)>) -> Seq<(int, int, int)> {
    v.map_values(|s: (usize, i64, i64)| (s.0 as int, s.1 as int, s.2 as int))
}

/// The result of extracting one batch of lines: the names of the fields declared by the
/// record types that matched, the samples taken (each tagged with the index of its field
/// name), and the block's timestamp.
pub struct ParsedBlock {
    names: Vec<String>,
    samples: Vec<(usize, i64, i64)>,
    ts: i64,
}

/// What a block holds: field names, tagged samples and timestamp.
pub struct BlockView {
    pub names: Seq<Seq<char>>,
    pub samples: Seq<(int, int, int)>,
    pub ts: int,
}

impl View for ParsedBlock {
    type V = BlockView;

    open spec fn view(&self) -> BlockView {
        BlockView { names: self.names_view(), samples: self.samples_view(), ts: self.ts_view() as int }
    }
}

pub open spec fn block_views(s: Seq<ParsedBlock>) -> Seq<BlockView> {
    s.map_values(|b: ParsedBlock| b@)
}

impl ParsedBlock {
    pub closed spec fn names_view(&self) -> Seq<Seq<char>> {
        views(self.names@)
    }

    pub closed spec fn samples_view(&self) -> Seq<(int, int, int)> {
        sample_views(self.samples@)
    }

    pub closed spec fn ts_view(&self) -> i64 {
        self.ts
    }

    pub fn new() -> (r: ParsedBlock)
        ensures
            r.names_view() == Seq::<Seq<char>>::empty(),
            r.samples_view() == Seq::<(int, int, int)>::empty(),
            r.ts_view() == 0,
    {
        let r = ParsedBlock { names: Vec::new(), samples: Vec::new(), ts: 0 };
        proof {
            assert(views(r.names@) =~= Seq::<Seq<char>>::empty());
            assert(sample_views(r.samples@) =~= Seq::<(int, int, int)>::empty());
        }
        r
    }

    /// A copy of the block.
    pub fn duplicate(&self) -> (r: ParsedBlock)
        ensures
            r.names_view() == self.names_view(),
            r.samples_view() == self.samples_view(),
            r.ts_view() == self.ts_view(),
    {
        let mut names: Vec<String> = Vec::new();
        let mut i: usize = 0;
        while i < self.names.len()
            invariant
                i <= self.names@.len(),
                views(names@) == views(self.names@).take(i as int),
            decreases self.names.len() - i,
        {
            names.push(self.names[i].clone());
            proof {
                assert(views(self.names@).take(i + 1) =~= views(self.names@).take(i as int).push(
                    self.names@[i as int]@,
                ));
                assert(views(names@) =~= views(names@.drop_last()).push(names@.last()@));
            }
            i = i + 1;
        }
        let mut samples: Vec<(usize, i64, i64)> = Vec::new();
        let mut j: usize = 0;
        while j < self.samples.len()
            invariant
                j <= self.samples@.len(),
                samples@ == self.samples@.take(j as int),
            decreases self.samples.len() - j,
        {
            samples.push(self.samples[j]);
            proof {
                assert(self.samples@.take(j + 1) =~= self.samples@.take(j as int).push(
                    self.samples@[j as int],
                ));
            }
            j = j + 1;
        }
        proof {
            assert(views(self.names@).take(i as int) =~= views(self.names@));
            assert(self.samples@.take(j as int) =~= self.samples@);
        }
        ParsedBlock { names, samples, ts: self.ts }
    }

    pub fn set_ts(&mut self, ts: i64)
        ensures
            final(self).ts_view() == ts,
            final(self).names_view() == old(self).names_view(),
            final(self).samples_view() == old(self).samples_view(),
    {
        self.ts = ts;
    }

    pub fn get_ts(&self) -> (r: i64)
        ensures
            r == self.ts_view(),
    {
        self.ts
    }

    /// Names of the block's fields, in order of first declaration.
    pub fn field_names(&self) -> (r: &Vec<String>)
        ensures
            views(r@) == self.names_view(),
    {
        &self.names
    }

    /// The samples of the field at `index` among the block's names, in the order taken.
    pub fn field_samples(&self, index: usize) -> (r: Vec<FieldSample>)
        ensures
            r@.map_values(|s: FieldSample| (index as int, s.0 as int, s.1 as int))
                == self.samples_view().filter(|s: (int, int, int)| s.0 == index),
    {
        let mut r: Vec<FieldSample> = Vec::new();
        let mut i: usize = 0;
        while i < self.samples.len()
            invariant
                i <= self.samples@.len(),
                r@.map_values(|s: FieldSample| (index as int, s.0 as int, s.1 as int))
                    == sample_views(self.samples@).take(i as int).filter(
                    |s: (int, int, int)| s.0 == index,
                ),
            decreases self.samples.len() - i,
        {
            let s = self.samples[i];
            proof {
                let all = sample_views(self.samples@);
                assert(all.take(i + 1).drop_last() =~= all.take(i as int));
                assert(all.take(i + 1).last() == (s.0 as int, s.1 as int, s.2 as int));
                reveal(Seq::filter);
            }
            if s.0 == index {
                r.push((s.1, s.2));
                proof {
                    assert(r@.map_values(|s: FieldSample| (index as int, s.0 as int, s.1 as int))
                        =~= tagged_samples(r@.drop_last(), index).push((index as int, s.1 as int, s.2 as int)));
                }
            }
            i = i + 1;
        }
        proof {
            assert(sample_views(self.samples@).take(i as int) =~= sample_views(self.samples@));
        }
        r
    }
}

spec fn tagged_samples(v: Seq<FieldSample>, index: usize) -> Seq<(int, int, int)> {
    v.map_values(|s: FieldSample| (index as int, s.0 as int, s.1 as int))
}

/// A block under construction: the extraction state while a batch is worked through.
pub struct BlockBuilder {
    names: Vec<String>,
    samples: Vec<(usize, i64, i64)>,
    baseline: Option<i64>,
    max_ts: Option<i64>,
    count: usize,
    matched: bool,
    line_matched: bool,
}

pub open spec fn within_bound(o: Option<int>) -> bool {
    match o {
        Some(x) => -BOUND <= x <= BOUND,
        None => true,
    }
}

pub open spec fn text_views(v: Seq<Option<String>>) -> Seq<Option<Seq<char>>> {
    v.map_values(|o: Option<String>| text_view(o))
}

impl BlockBuilder {
    pub closed spec fn model(&self) -> ExtractState {
        ExtractState {
            names: views(self.names@),
            samples: sample_views(self.samples@),
            baseline: widen(self.baseline),
            max_ts: widen(self.max_ts),
            count: self.count as nat,
            matched: self.matched,
            line_matched: self.line_matched,
        }
    }

    /// The baseline is a parsed number, and no field name occurs twice.
    pub closed spec fn wf(&self) -> bool {
        &&& within_bound(widen(self.baseline))
        &&& all_distinct(views(self.names@))
    }

    /// An empty block, with `baseline` the first timestamp resolved so far.
    pub fn new(baseline: Option<i64>) -> (r: BlockBuilder)
        requires
            within_bound(widen(baseline)),
        ensures
            r.wf(),
            r.model() == start_state(widen(baseline)),
    {
        let r = BlockBuilder {
            names: Vec::new(),
            samples: Vec::new(),
            baseline,
            max_ts: None,
            count: 0,
            matched: false,
            line_matched: false,
        };
        proof {
            assert(views(r.names@) =~= Seq::<Seq<char>>::empty());
            assert(sample_views(r.samples@) =~= Seq::<(int, int, int)>::empty());
        }
        r
    }

    /// The first timestamp resolved so far.
    pub fn baseline(&self) -> (r: Option<i64>)
        ensures
            widen(r) == self.model().baseline,
    {
        self.baseline
    }

    /// Starts a new line: no record type has matched it yet.
    pub fn begin_line(&mut self)
        requires
            old(self).wf(),
        ensures
            final(self).wf(),
            final(self).model() == begin_line(old(self).model()),
    {
        self.line_matched = false;
    }

    /// Ends a line: it is counted when some record type matched it.
    pub fn end_line(&mut self)
        requires
            old(self).wf(),
        ensures
            final(self).wf(),
            final(self).model() == end_line(old(self).model()),
    {
        if self.line_matched && self.count < usize::MAX {
            self.count = self.count + 1;
        }
    }

    /// The number of lines counted so far.
    pub fn lines_matched(&self) -> (r: usize)
        ensures
            r == self.model().count,
    {
        self.count
    }

    /// Whether any match was added.
    pub fn matched(&self) -> (r: bool)
        ensures
            r == self.model().matched,
    {
        self.matched
    }

    /// The block built so far, stamped `ts`, and the number of lines counted.
    pub fn into_block(self, ts: i64) -> (r: (ParsedBlock, usize))
        requires
            self.wf(),
        ensures
            all_distinct(r.0.names_view()),
            r.0.names_view() == self.model().names,
            r.0.samples_view() == self.model().samples,
            r.0.ts_view() == ts,
            r.1 == self.model().count,
    {
        (ParsedBlock { names: self.names, samples: self.samples, ts }, self.count)
    }

    /// The stamp of the block: its largest sample timestamp, else `counter` whole units.
    pub fn stamp(&self, counter: u64) -> (r: i64)
        requires
            counter <= COUNTER_MAX,
        ensures
            r == block_ts(self.model(), counter as nat),
    {
        match self.max_ts {
            Some(t) => t,
            None => counter as i64 * 1_000_000,
        }
    }

    /// Adds a match of `rec`, given the texts of its groups in the order of
    /// `rec.group_names()` (`None` for a group that took no part): the match is noted,
    /// the record type's fields are declared, the baseline is fixed if it was not, and
    /// each field whose text reads as a decimal gets a sample.
    pub fn add_match(&mut self, rec: &LogRecordType, captures: &Vec<Option<String>>)
        requires
            old(self).wf(),
            rec.wf(),
            captures@.len() == rec.model().fields.len() + 2,
        ensures
            final(self).wf(),
            final(self).model() == apply_match(
                old(self).model(),
                rec.model().fields,
                text_views(captures@),
            ),
    {
        let ghost cv = text_views(captures@);
        let ghost fms = rec.model().fields;
        proof {
            assert(text_view(captures@[0]) == cv[0]);
            assert(text_view(captures@[1]) == cv[1]);
        }
        let ts: Option<i64> = match &captures[0] {
            Some(t) => parse_decimal(t.as_str()),
            None => match &captures[1] {
                Some(t) => parse_time(t.as_str()),
                None => None,
            },
        };
        proof {
            assert(widen(ts) == resolve_ts(cv));
        }
        self.matched = true;
        self.line_matched = true;
        declare_fields(&mut self.names, &rec.fields);
        if self.baseline.is_none() {
            self.baseline = ts;
        }
        let ghost entered = self.model();
        proof {
            assert(entered == enter_match(old(self).model(), fms, cv));
        }
        let clen = captures.len();
        let mut k: usize = 0;
        while k < rec.fields.len()
            invariant
                rec.wf(),
                k <= rec.fields@.len(),
                clen == captures@.len(),
                captures@.len() == rec.groups@.len(),
                cv == text_views(captures@),
                fms == rec.model().fields,
                within_bound(widen(ts)),
                widen(ts) == resolve_ts(cv),
                self.wf(),
                self.model() == extract_upto(entered, fms, cv, resolve_ts(cv), k as int),
            decreases rec.fields.len() - k,
        {
            let f = &rec.fields[k];
            let reserved = f.name == rec.groups[0] || f.name == rec.groups[1];
            proof {
                assert(fms[k as int] == f.model());
                assert(text_view(captures@[k + 2]) == cv[k + 2]);
            }
            extract_field(self, f, &captures[k + 2], ts, reserved);
            k = k + 1;
        }
    }
}

/// Index of `n` in `names`, or `names.len()`.
pub(crate) fn find_name(names: &Vec<String>, n: &String) -> (r: usize)
    ensures
        r == first_index_from(views(names@), n@, 0),
{
    let ghost vs = views(names@);
    let mut i: usize = 0;
    while i < names.len() && names[i] != *n
        invariant
            i <= names@.len(),
            vs == views(names@),
            first_index_from(vs, n@, 0) == first_index_from(vs, n@, i as int),
        decreases names.len() - i,
    {
        proof {
            assert(vs[i as int] == names@[i as int]@);
            crate::text::lemma_first_index_step(vs, n@, i as int);
        }
        i = i + 1;
    }
    proof {
        if i < names.len() {
            assert(vs[i as int] == n@);
        }
    }
    i
}

/// Adds to `names` the names of `fields` that it lacks, in order.
fn declare_fields(names: &mut Vec<String>, fields: &Vec<LogRecordField>)
    requires
        all_distinct(views(old(names)@)),
    ensures
        all_distinct(views(final(names)@)),
        views(final(names)@) == declare_upto(
            views(old(names)@),
            field_models(fields@),
            fields@.len() as int,
        ),
{
    let ghost fms = field_models(fields@);
    let mut k: usize = 0;
    while k < fields.len()
        invariant
            k <= fields@.len(),
            fms == field_models(fields@),
            all_distinct(views(names@)),
            views(names@) == declare_upto(views(old(names)@), fms, k as int),
        decreases fields.len() - k,
    {
        let f = &fields[k];
        proof {
            assert(fms[k as int].name == f.name@);
        }
        let found = find_name(names, &f.name);
        proof {
            crate::text::lemma_first_index_bounds(views(names@), f.name@, 0);
            assert(declare_upto(views(old(names)@), fms, k + 1) == add_name(
                declare_upto(views(old(names)@), fms, k as int),
                fms[k as int].name,
            ));
        }
        if found == names.len() {
            let ghost before = views(names@);
            names.push(f.name.clone());
            proof {
                assert(views(names@) =~= before.push(f.name@));
                assert forall|a: int, b: int|
                    0 <= a < b < views(names@).len() implies views(names@)[a] != views(
                    names@,
                )[b] by {
                    if b < before.len() {
                        assert(views(names@)[a] == before[a]);
                        assert(views(names@)[b] == before[b]);
                    } else {
                        assert(views(names@)[a] == before[a]);
                    }
                }
            }
        }
        k = k + 1;
    }
}

/// One declared field of a matched line (see `step_field`).
fn extract_field(
    acc: &mut BlockBuilder,
    f: &LogRecordField,
    capture: &Option<String>,
    ts: Option<i64>,
    reserved: bool,
)
    requires
        old(acc).wf(),
        within_bound(widen(ts)),
        reserved == is_reserved(f.name@),
    ensures
        final(acc).wf(),
        final(acc).model() == step_field(old(acc).model(), f.model(), text_view(*capture), widen(ts)),
{
    if reserved {
        return;
    }
    let text = match capture {
        Some(t) => t,
        None => {
            return;
        },
    };
    let v = match parse_decimal(text.as_str()) {
        Some(v) => v,
        None => {
            return;
        },
    };
    let idx = find_name(&acc.names, &f.name);
    if idx >= acc.names.len() {
        return;
    }
    let t0: i64 = match ts {
        Some(t) => t,
        None => 0,
    };
    let b0: i64 = match acc.baseline {
        Some(b) => b,
        None => 0,
    };
    let rel = t0 - b0;
    let value = f.value_of(v);
    acc.samples.push((idx, rel, value));
    if ts.is_some() {
        acc.max_ts = match acc.max_ts {
            Some(m) => if m > rel {
                Some(m)
            } else {
                Some(rel)
            },
            None => Some(rel),
        };
    }
    proof {
        assert(sample_views(acc.samples@) =~= sample_views(old(acc).samples@).push(
            (idx as int, rel as int, value as int),
        ));
    }
}

/// One record type tried on one line (see `step_record`).
fn apply_record(acc: &mut BlockBuilder, rec: &LogRecordType, line: &String)
    requires
        old(acc).wf(),
        rec.wf(),
    ensures
        final(acc).wf(),
        final(acc).model() == step_record(old(acc).model(), rec.model(), line@),
{
    let caps = match captures_named(&rec.pattern, line.as_str(), &rec.groups) {
        Some(c) => c,
        None => {
            return;
        },
    };
    proof {
        let m = regex_captures(rec.pattern@, line@)->0;
        let fms = rec.model().fields;
        assert forall|i: int| 0 <= i < caps@.len() implies #[trigger] text_views(caps@)[i]
            == captures_of(m, fms)[i] by {
            assert(text_view(caps@[i]) == group(m, rec.groups@[i]@));
            if i >= 2 {
                assert(rec.groups@[(i - 2) + 2]@ == rec.fields@[i - 2].name@);
            }
        }
        assert(text_views(caps@) =~= captures_of(m, fms));
    }
    acc.add_match(rec, &caps);
}

/// Turns batches of lines into blocks. Timestamps are made relative to the first one
/// ever resolved; blocks without any timestamp are stamped by a counter instead.
pub struct LogParser {
    records_conf: Arc<LogRecordsConfig>,
    results_counter: u64,
    ts_init: Option<i64>,
}

impl LogParser {
    pub closed spec fn config(&self) -> Seq<RecordModel> {
        self.records_conf.model()
    }

    /// The first timestamp ever resolved, if any.
    pub closed spec fn baseline(&self) -> Option<int> {
        widen(self.ts_init)
    }

    /// The fallback block counter.
    pub closed spec fn counter(&self) -> nat {
        self.results_counter as nat
    }

    pub closed spec fn wf(&self) -> bool {
        &&& self.records_conf.wf()
        &&& within_bound(widen(self.ts_init))
        &&& self.results_counter <= COUNTER_MAX
    }

    pub fn new(record_type: Arc<LogRecordsConfig>) -> (r: LogParser)
        requires
            record_type.wf(),
        ensures
            r.wf(),
            r.config() == record_type.model(),
            r.baseline() is None,
            r.counter() == 0,
    {
        LogParser { records_conf: record_type, results_counter: 0, ts_init: None }
    }

    /// Extracts one batch of lines. Every line is tried against every record type, in
    /// order; `None` when no line matched anything. Otherwise the block holds the fields
    /// and samples of all matches and is stamped with the largest sample timestamp, or
    /// with the fallback counter when no sample had one; the counter then advances. The
    /// count returned is the number of lines that at least one record type matched.
    pub fn parse(&mut self, lines: &Vec<String>) -> (r: Option<(ParsedBlock, usize)>)
        requires
            old(self).wf(),
        ensures
            final(self).wf(),
            final(self).config() == old(self).config(),
            ({
                let fin = run_lines(
                    start_state(old(self).baseline()),
                    old(self).config(),
                    views(lines@),
                    lines@.len() as int,
                );
                &&& final(self).baseline() == fin.baseline
                &&& match r {
                    None => {
                        &&& !fin.matched
                        &&& final(self).counter() == old(self).counter()
                    },
                    Some((b, c)) => {
                        &&& fin.matched
                        &&& b.names_view() == fin.names
                        &&& all_distinct(b.names_view())
                        &&& b.samples_view() == fin.samples
                        &&& b.ts_view() == block_ts(fin, old(self).counter())
                        &&& c == fin.count
                        &&& final(self).counter() == if old(self).counter() < COUNTER_MAX {
                            old(self).counter() + 1
                        } else {
                            old(self).counter()
                        }
                    },
                }
            }),
    {
        let ghost recs = self.config();
        let ghost lv = views(lines@);
        let mut acc = BlockBuilder::new(self.ts_init);
        let conf = &*self.records_conf;
        let n = conf.records.len();
        let mut i: usize = 0;
        while i < lines.len()
            invariant
                i <= lines@.len(),
                lv == views(lines@),
                conf.wf(),
                recs == conf.model(),
                n == conf.records@.len(),
                acc.wf(),
                acc.model() == run_lines(start_state(old(self).baseline()), recs, lv, i as int),
            decreases lines.len() - i,
        {
            acc.begin_line();
            let ghost before = acc.model();
            let line = &lines[i];
            let mut k: usize = 0;
            while k < n
                invariant
                    k <= n,
                    n == conf.records@.len(),
                    conf.wf(),
                    recs == conf.model(),
                    acc.wf(),
                    acc.model() == step_records(before, recs, line@, k as int),
                decreases n - k,
            {
                proof {
                    assert(conf.records@[k as int].wf());
                    assert(recs[k as int] == conf.records@[k as int].model());
                }
                apply_record(&mut acc, &conf.records[k], line);
                k = k + 1;
            }
            acc.end_line();
            proof {
                assert(lv[i as int] == line@);
            }
            i = i + 1;
        }
        self.ts_init = acc.baseline();
        if !acc.matched() {
            return None;
        }
        let ts = acc.stamp(self.results_counter);
        if self.results_counter < COUNTER_MAX {
            self.results_counter = self.results_counter + 1;
        }
        Some(acc.into_block(ts))
    }
}

/// Why a configuration could not be loaded.
#[derive(Debug)]
pub enum ConfigError {
    /// The pattern of a record type does not compile; the text says why.
    InvalidPattern(String),
    /// The record type with this name declares no plots.
    MissingPlots(String),
    /// This text, given as a coefficient or a limit, is not a decimal number.
    InvalidNumber(String),
}

} // verus!
