use vstd::prelude::*;
use vstd::string::{StrSliceExecFns, StringExecFns};

verus! {

/// A chart of the metrics report, known by its id.
pub struct Chart {
    id: String,
}

impl Chart {
    pub closed spec fn spec_id(&self) -> Seq<char> {
        self.id@
    }

    /// A chart with the given id; the id must not be empty.
    pub fn new(chart_id: &str) -> (r: Result<Chart, String>)
        ensures
            r is Ok <==> chart_id@.len() > 0,
            r matches Ok(c) ==> c.spec_id() == chart_id@,
    {
        if chart_id.unicode_len() == 0 {
            return Err(String::from_str("Chart id is required"));
        }
        Ok(Chart { id: chart_id.to_owned() })
    }

    pub fn id(&self) -> (r: &str)
        ensures
            r@ == self.spec_id(),
    {
        self.id.as_str()
    }
}

/// A bar chart of the metrics report.
pub struct BarChart {
    chart: Chart,
}

impl BarChart {
    pub closed spec fn spec_id(&self) -> Seq<char> {
        self.chart.spec_id()
    }

    pub fn new(chart_id: &str) -> (r: BarChart)
        requires
            chart_id@.len() > 0,
        ensures
            r.spec_id() == chart_id@,
    {
        BarChart { chart: Chart { id: chart_id.to_owned() } }
    }
}

/// A pie chart of one value, given by its text.
pub struct SimplePie {
    chart: Chart,
    callable: String,
}

impl SimplePie {
    pub closed spec fn spec_id(&self) -> Seq<char> {
        self.chart.spec_id()
    }

    pub closed spec fn value(&self) -> Seq<char> {
        self.callable@
    }

    pub fn new(chart_id: &str, callable: String) -> (r: SimplePie)
        requires
            chart_id@.len() > 0,
        ensures
            r.spec_id() == chart_id@,
            r.value() == callable@,
    {
        SimplePie { chart: Chart { id: chart_id.to_owned() }, callable }
    }
}

} // verus!
