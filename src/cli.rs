use vstd::prelude::*;

use crate::analyzer::{
    fastest_result, percentiles_result, slowest_result, Analyzer, Fraction,
};
use crate::error::Error;

verus! {

/// The command line: one command.
pub struct Args {
    pub command: Commands,
}

pub enum Commands {
    /// Analyses a CSV log of elapsed times, one execution of the same
    /// operation per row, with the columns timestamp, elapsed time
    /// (seconds), trace id and trace URL.
    Csv { file: String, analysis: CSVAnalysis },
}

/// Which statistics to report.
pub enum CSVAnalysis {
    /// The fastest, the slowest, and the 50th and 99th percentiles.
    All,
    /// The fastest execution.
    Fastest,
    /// The slowest execution.
    Slowest,
    /// The given percentiles, as whole percents.
    Percentile { percentiles: Vec<u8> },
}

/// What an analysis found; elapsed times are in nanoseconds.
pub enum Report {
    All {
        fastest: i128,
        fastest_trace_id: String,
        slowest: i128,
        slowest_trace_id: String,
        /// The 50th and the 99th percentiles.
        percentiles: Vec<i128>,
    },
    Fastest { elapsed_nanos: i128, trace_id: String },
    Slowest { elapsed_nanos: i128, trace_id: String },
    /// One value per requested percent, in the order asked.
    Percentiles { values: Vec<i128> },
}

/// The percents `ps` as fractions of 100.
pub open spec fn percent_fractions(ps: Seq<u8>) -> Seq<Fraction> {
    ps.map_values(|p: u8| Fraction { numerator: p as u64, denominator: 100 })
}

/// The percentiles that `All` reports: the 50th and the 99th.
pub open spec fn default_fractions() -> Seq<Fraction> {
    seq![Fraction { numerator: 50, denominator: 100 }, Fraction { numerator: 99, denominator: 100 }]
}

/// `rep` is the report of `op` on `rows`.
pub open spec fn reports(rows: Seq<crate::analyzer::Row>, op: CSVAnalysis, rep: Report) -> bool {
    match (op, rep) {
        (CSVAnalysis::All, Report::All { fastest, fastest_trace_id, slowest, slowest_trace_id, percentiles }) => {
            &&& fastest_result(rows) == Ok::<(i128, Seq<char>), Error>((fastest, fastest_trace_id@))
            &&& slowest_result(rows) == Ok::<(i128, Seq<char>), Error>((slowest, slowest_trace_id@))
            &&& percentiles_result(rows, default_fractions()) == Ok::<Seq<i128>, Error>(percentiles@)
        },
        (CSVAnalysis::Fastest, Report::Fastest { elapsed_nanos, trace_id }) => fastest_result(rows)
            == Ok::<(i128, Seq<char>), Error>((elapsed_nanos, trace_id@)),
        (CSVAnalysis::Slowest, Report::Slowest { elapsed_nanos, trace_id }) => slowest_result(rows)
            == Ok::<(i128, Seq<char>), Error>((elapsed_nanos, trace_id@)),
        (CSVAnalysis::Percentile { percentiles }, Report::Percentiles { values }) => percentiles_result(
            rows,
            percent_fractions(percentiles@),
        ) == Ok::<Seq<i128>, Error>(values@),
        _ => false,
    }
}

/// The error that `op` meets on `rows`, if any.
pub open spec fn analysis_error(rows: Seq<crate::analyzer::Row>, op: CSVAnalysis) -> Option<Error> {
    match op {
        CSVAnalysis::Percentile { percentiles } => match percentiles_result(rows, percent_fractions(percentiles@)) {
            Err(e) => Some(e),
            Ok(_) => None,
        },
        _ => if rows.len() == 0 {
            Some(Error::EmptyDataset)
        } else {
            None
        },
    }
}

/// Runs the analysis `op` on a loaded log: percents become fractions of
/// 100, and `All` asks for the fastest, the slowest and the 50th and 99th
/// percentiles.
pub fn csv_analysis(analyzer: &Analyzer, op: &CSVAnalysis) -> (r: Result<Report, Error>)
    ensures
        match r {
            Ok(rep) => analysis_error(analyzer@, *op) is None && reports(analyzer@, *op, rep),
            Err(e) => analysis_error(analyzer@, *op) == Some(e),
        },
{
    match op {
        CSVAnalysis::All => {
            let fastest = analyzer.fastest();
            let (fastest, fastest_trace_id) = match fastest {
                Ok(x) => x,
                Err(e) => return Err(e),
            };
            let slowest = analyzer.slowest();
            let (slowest, slowest_trace_id) = match slowest {
                Ok(x) => x,
                Err(e) => return Err(e),
            };
            let ps = vec![
                Fraction { numerator: 50, denominator: 100 },
                Fraction { numerator: 99, denominator: 100 },
            ];
            assert(ps@ =~= default_fractions());
            proof {
                assert forall|k: int| !crate::analyzer::is_first_invalid(ps@, k) by {
                    if 0 <= k < 2 {
                        assert(ps@[k].valid());
                    }
                }
            }
            match analyzer.percentiles(ps.as_slice()) {
                Ok(percentiles) => Ok(Report::All {
                    fastest,
                    fastest_trace_id,
                    slowest,
                    slowest_trace_id,
                    percentiles,
                }),
                Err(e) => Err(e),
            }
        },
        CSVAnalysis::Fastest => match analyzer.fastest() {
            Ok((elapsed_nanos, trace_id)) => Ok(Report::Fastest { elapsed_nanos, trace_id }),
            Err(e) => Err(e),
        },
        CSVAnalysis::Slowest => match analyzer.slowest() {
            Ok((elapsed_nanos, trace_id)) => Ok(Report::Slowest { elapsed_nanos, trace_id }),
            Err(e) => Err(e),
        },
        CSVAnalysis::Percentile { percentiles } => {
            let mut ps: Vec<Fraction> = Vec::new();
            let mut k: usize = 0;
            while k < percentiles.len()
                invariant
                    k <= percentiles@.len(),
                    ps@ == percent_fractions(percentiles@).take(k as int),
                decreases percentiles@.len() - k,
            {
                ps.push(Fraction { numerator: percentiles[k] as u64, denominator: 100 });
                k += 1;
                assert(ps@ =~= percent_fractions(percentiles@).take(k as int));
            }
            assert(ps@ =~= percent_fractions(percentiles@));
            match analyzer.percentiles(ps.as_slice()) {
                Ok(values) => Ok(Report::Percentiles { values }),
                Err(e) => Err(e),
            }
        },
    }
}

} // verus!
