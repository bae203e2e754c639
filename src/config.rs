//! Building a configuration from plain entries, as read from the configuration file:
//! record types with a name, a pattern and plots, each plot a declared field.
use vstd::prelude::*;
use crate::fixed::{decimal_units, parse_decimal};
use crate::logrecord::{
    ConfigError, FieldModel, LogRecordType, LogRecordsConfig, RecordModel, field_names_of,
    field_spec,
};
use crate::pattern::{regex_accepts, text_view};
use crate::text::first_index_from;

verus! {

/// One plot of a record type as written in the configuration. Numbers are kept as
/// their text.
pub struct PlotEntry {
    pub name: Option<String>,
    pub axis: Option<i64>,
    pub style: Option<String>,
    pub coef: Option<String>,
    pub ylim: Option<Vec<String>>,
}

/// One record type as written in the configuration.
pub struct RecordEntry {
    pub name: Option<String>,
    pub regex: Option<String>,
    pub plots: Option<Vec<PlotEntry>>,
}

/// The coefficient and limits of a plot read as decimals.
pub open spec fn numbers_ok(p: PlotEntry) -> bool {
    &&& (p.coef matches Some(c) ==> decimal_units(c@) is Some)
    &&& (p.ylim matches Some(v) ==> forall|i: int|
        0 <= i < v@.len() ==> #[trigger] decimal_units(v@[i]@) is Some)
}

/// An axis number is kept when it fits a `u8`, and dropped otherwise.
pub open spec fn axis_of(a: Option<i64>) -> Option<u8> {
    match a {
        Some(x) => if 0 <= x <= 255 {
            Some(x as u8)
        } else {
            None
        },
        None => None,
    }
}

/// The field a named plot declares: its axis when it fits a `u8`, its style, and its
/// coefficient and limits read as decimals.
pub open spec fn plot_model(p: PlotEntry) -> FieldModel {
    field_spec(
        p.name->0@,
        axis_of(p.axis),
        text_view(p.style),
        match p.coef {
            Some(c) => decimal_units(c@),
            None => None,
        },
        match p.ylim {
            Some(v) => Some(Seq::new(v@.len(), |i: int| decimal_units(v@[i]@)->0)),
            None => None,
        },
    )
}

/// Declares `f`: a field of the same name is replaced in place, else `f` goes last.
pub open spec fn put_field(fs: Seq<FieldModel>, f: FieldModel) -> Seq<FieldModel> {
    let k = first_index_from(field_names_of(fs), f.name, 0);
    if k < fs.len() {
        fs.update(k, f)
    } else {
        fs.push(f)
    }
}

/// The fields declared by the first `k` plots; plots without a name are skipped.
pub open spec fn plots_upto(ps: Seq<PlotEntry>, k: int) -> Seq<FieldModel>
    decreases k,
{
    if k <= 0 {
        Seq::empty()
    } else if ps[k - 1].name is Some {
        put_field(plots_upto(ps, k - 1), plot_model(ps[k - 1]))
    } else {
        plots_upto(ps, k - 1)
    }
}

/// Every named plot among the first `k` has readable numbers.
pub open spec fn plots_valid_upto(ps: Seq<PlotEntry>, k: int) -> bool {
    forall|j: int| 0 <= j < k ==> (#[trigger] ps[j]).name is Some ==> numbers_ok(ps[j])
}

/// Reads one number of a plot; the error names the text.
fn number(text: &String) -> (r: Result<i64, ConfigError>)
    ensures
        r is Ok <==> decimal_units(text@) is Some,
        r matches Ok(v) ==> v == decimal_units(text@)->0,
        r matches Err(e) ==> e is InvalidNumber,
{
    match parse_decimal(text.as_str()) {
        Some(v) => Ok(v),
        None => Err(ConfigError::InvalidNumber(text.clone())),
    }
}

/// Reads a list of numbers; the first that does not read as a decimal is the error.
fn numbers(v: &Vec<String>) -> (r: Result<Vec<i64>, ConfigError>)
    ensures
        r is Ok <==> forall|i: int| 0 <= i < v@.len() ==> #[trigger] decimal_units(v@[i]@) is Some,
        r matches Ok(out) ==> out@.len() == v@.len() && forall|i: int|
            0 <= i < v@.len() ==> #[trigger] out@[i] == decimal_units(v@[i]@)->0,
        r matches Err(e) ==> e is InvalidNumber,
{
    let mut out: Vec<i64> = Vec::new();
    let mut i: usize = 0;
    while i < v.len()
        invariant
            i <= v@.len(),
            out@.len() == i,
            forall|j: int| 0 <= j < i ==> #[trigger] decimal_units(v@[j]@) is Some,
            forall|j: int| 0 <= j < i ==> #[trigger] out@[j] == decimal_units(v@[j]@)->0,
        decreases v.len() - i,
    {
        match number(&v[i]) {
            Ok(x) => {
                out.push(x);
                proof {
                    assert(out@[i as int] == x);
                    assert(v@[i as int]@ == v[i as int]@);
                }
            },
            Err(e) => {
                return Err(e);
            },
        }
        i = i + 1;
    }
    Ok(out)
}

/// Declares the field of plot `p` on `rec` when the plot has a name.
fn add_plot(rec: &mut LogRecordType, p: &PlotEntry) -> (r: Result<(), ConfigError>)
    requires
        old(rec).wf(),
    ensures
        final(rec).wf(),
        final(rec).name_view() == old(rec).name_view(),
        final(rec).model().source == old(rec).model().source,
        r is Ok <==> (p.name is Some ==> numbers_ok(*p)),
        r matches Err(e) ==> e is InvalidNumber,
        r is Ok && p.name is Some ==> final(rec).model().fields == put_field(
            old(rec).model().fields,
            plot_model(*p),
        ),
        p.name is None ==> final(rec).model() == old(rec).model(),
{
    let name = match &p.name {
        Some(n) => n,
        None => {
            return Ok(());
        },
    };
    let coef = match &p.coef {
        Some(c) => match number(c) {
            Ok(v) => Some(v),
            Err(e) => {
                return Err(e);
            },
        },
        None => None,
    };
    let ylim = match &p.ylim {
        Some(v) => match numbers(v) {
            Ok(out) => Some(out),
            Err(e) => {
                return Err(e);
            },
        },
        None => None,
    };
    let axis = match p.axis {
        Some(x) => if 0 <= x && x <= 255 {
            Some(x as u8)
        } else {
            None
        },
        None => None,
    };
    let style = match &p.style {
        Some(s) => Some(s.as_str()),
        None => None,
    };
    proof {
        assert(numbers_ok(*p));
        if p.ylim is Some {
            let v = p.ylim->0;
            let out = ylim->0;
            assert(crate::logrecord::int_seq(out@) =~= Seq::new(
                v@.len(),
                |i: int| decimal_units(v@[i]@)->0,
            ));
        }
    }
    rec.add_field(name.as_str(), axis, style, coef, ylim);
    Ok(())
}

/// The record type an entry describes: `None` when its name or pattern is missing (the
/// entry is skipped); an error when the pattern does not compile, when it has no plots,
/// or when a named plot has a number that does not read as a decimal.
pub fn record_from_entry(e: &RecordEntry) -> (r: Result<Option<LogRecordType>, ConfigError>)
    ensures
        (e.name is None || e.regex is None) ==> r matches Ok(None),
        (e.name is Some && e.regex is Some) ==> {
            if !regex_accepts(e.regex->0@) {
                r matches Err(ConfigError::InvalidPattern(_))
            } else if e.plots is None {
                r matches Err(ConfigError::MissingPlots(_))
            } else if !plots_valid_upto(e.plots->0@, e.plots->0@.len() as int) {
                r matches Err(ConfigError::InvalidNumber(_))
            } else {
                r matches Ok(Some(t)) && t.wf() && t.name_view() == e.name->0@ && t.model() == (
                RecordModel {
                    source: e.regex->0@,
                    fields: plots_upto(e.plots->0@, e.plots->0@.len() as int),
                })
            }
        },
{
    let name = match &e.name {
        Some(n) => n,
        None => {
            return Ok(None);
        },
    };
    let regex = match &e.regex {
        Some(r) => r,
        None => {
            return Ok(None);
        },
    };
    let mut rec = match LogRecordType::new(name.as_str(), regex.as_str()) {
        Ok(t) => t,
        Err(err) => {
            return Err(err);
        },
    };
    let plots = match &e.plots {
        Some(ps) => ps,
        None => {
            return Err(ConfigError::MissingPlots(name.clone()));
        },
    };
    let mut i: usize = 0;
    while i < plots.len()
        invariant
            e.name == Some(*name),
            e.regex == Some(*regex),
            e.plots == Some(*plots),
            regex_accepts(regex@),
            i <= plots@.len(),
            rec.wf(),
            rec.name_view() == name@,
            rec.model() == (RecordModel { source: regex@, fields: plots_upto(plots@, i as int) }),
            plots_valid_upto(plots@, i as int),
        decreases plots.len() - i,
    {
        let p = &plots[i];
        match add_plot(&mut rec, p) {
            Ok(()) => {},
            Err(err) => {
                proof {
                    assert(!plots_valid_upto(plots@, plots@.len() as int)) by {
                        assert(plots@[i as int] == *p);
                    }
                }
                return Err(err);
            },
        }
        proof {
            assert(plots@[i as int] == *p);
            assert forall|j: int| 0 <= j < i + 1 implies (#[trigger] plots@[j]).name is Some
                ==> numbers_ok(plots@[j]) by {
                if j < i {
                    assert(plots_valid_upto(plots@, i as int));
                }
            }
        }
        i = i + 1;
    }
    Ok(Some(rec))
}

/// Adds the record type `rec` under `name`: one of the same name is replaced in place,
/// else it goes last.
pub open spec fn put_record(
    rs: Seq<(Seq<char>, RecordModel)>,
    name: Seq<char>,
    rec: RecordModel,
) -> Seq<(Seq<char>, RecordModel)> {
    let k = first_index_from(rs.map_values(|x: (Seq<char>, RecordModel)| x.0), name, 0);
    if k < rs.len() {
        rs.update(k, (name, rec))
    } else {
        rs.push((name, rec))
    }
}

/// What an entry contributes: `None` when it is in error, `Some(None)` when skipped.
pub open spec fn entry_result(e: RecordEntry) -> Option<Option<(Seq<char>, RecordModel)>> {
    if e.name is None || e.regex is None {
        Some(None)
    } else if !regex_accepts(e.regex->0@) || e.plots is None || !plots_valid_upto(
        e.plots->0@,
        e.plots->0@.len() as int,
    ) {
        None
    } else {
        Some(
            Some(
                (
                    e.name->0@,
                    RecordModel {
                        source: e.regex->0@,
                        fields: plots_upto(e.plots->0@, e.plots->0@.len() as int),
                    },
                ),
            ),
        )
    }
}

/// The record types of the first `k` entries, by name in order of first appearance, or
/// `None` when one of them is in error.
pub open spec fn entries_upto(es: Seq<RecordEntry>, k: int) -> Option<Seq<(Seq<char>, RecordModel)>>
    decreases k,
{
    if k <= 0 {
        Some(Seq::empty())
    } else {
        match entries_upto(es, k - 1) {
            None => None,
            Some(rs) => match entry_result(es[k - 1]) {
                None => None,
                Some(None) => Some(rs),
                Some(Some(x)) => Some(put_record(rs, x.0, x.1)),
            },
        }
    }
}

pub open spec fn pairs_of(c: LogRecordsConfig) -> Seq<(Seq<char>, RecordModel)> {
    Seq::new(c.model().len(), |i: int| (c.record_names()[i], c.model()[i]))
}

/// The configuration titled `title` with the record types of `entries`, in order; the
/// first entry in error stops it with that error.
pub fn load_records(title: String, entries: &Vec<RecordEntry>) -> (r: Result<
    LogRecordsConfig,
    ConfigError,
>)
    ensures
        r is Ok <==> entries_upto(entries@, entries@.len() as int) is Some,
        r matches Ok(c) ==> c.wf() && c.title_view() == title@ && pairs_of(c) == entries_upto(
            entries@,
            entries@.len() as int,
        )->0,
{
    let mut conf = LogRecordsConfig::new(title);
    let mut i: usize = 0;
    proof {
        assert(pairs_of(conf) =~= Seq::<(Seq<char>, RecordModel)>::empty());
    }
    while i < entries.len()
        invariant
            i <= entries@.len(),
            conf.wf(),
            conf.title_view() == title@,
            conf.model().len() == conf.record_names().len(),
            entries_upto(entries@, i as int) == Some(pairs_of(conf)),
        decreases entries.len() - i,
    {
        let e = &entries[i];
        proof {
            assert(entries@[i as int] == *e);
        }
        match record_from_entry(e) {
            Ok(Some(rec)) => {
                let ghost before = pairs_of(conf);
                let ghost names0 = conf.record_names();
                let ghost models0 = conf.model();
                let ghost nm = rec.name_view();
                let ghost rm = rec.model();
                conf.insert(rec);
                proof {
                    assert(old_names(before) =~= names0);
                    let k = first_index_from(names0, nm, 0);
                    crate::text::lemma_first_index_bounds(names0, nm, 0);
                    if k < models0.len() {
                        assert(pairs_of(conf) =~= before.update(k, (nm, rm)));
                    } else {
                        assert(pairs_of(conf) =~= before.push((nm, rm)));
                    }
                    assert(pairs_of(conf) =~= put_record(before, nm, rm));
                }
            },
            Ok(None) => {},
            Err(err) => {
                proof {
                    lemma_error_sticks(entries@, i as int + 1, entries@.len() as int);
                }
                return Err(err);
            },
        }
        i = i + 1;
    }
    Ok(conf)
}

spec fn old_names(rs: Seq<(Seq<char>, RecordModel)>) -> Seq<Seq<char>> {
    rs.map_values(|x: (Seq<char>, RecordModel)| x.0)
}

proof fn lemma_error_sticks(es: Seq<RecordEntry>, k1: int, k2: int)
    requires
        0 < k1 <= k2,
        entries_upto(es, k1) is None,
    ensures
        entries_upto(es, k2) is None,
    decreases k2 - k1,
{
    if k2 > k1 {
        lemma_error_sticks(es, k1, k2 - 1);
    }
}

} // verus!
