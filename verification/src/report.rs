//! The outcome of a check, and how it reads.

use crate::explain::{refs_view, Kind, OpRef, OpRefView, Vulnerability, VulnerabilityView};
use crate::model::Profile;
use crate::text::{
    cat, chars_of, decimal, decimal_of, join_all, joined, lines, lines_of, text_of, trim, trimmed,
    views,
};
use vstd::prelude::*;

verus! {

/// Outcome of a check.
#[derive(Debug, Clone, PartialEq, Eq)]
pub struct Report {
    pub profile: Profile,
    pub ops: usize,
    pub crash_points: usize,
    /// Unique on-disk states the checker ran against.
    pub states: usize,
    /// True if `max_states` cut the enumeration short.
    pub truncated: bool,
    /// States reached by crashing during recovery.
    pub recovery_states: usize,
    /// States the checker rejected.
    pub failures: usize,
    pub vulnerabilities: Vec<Vulnerability>,
}

/// The outcome of a check, over mathematical values.
pub struct ReportView {
    pub profile: Profile,
    pub ops: usize,
    pub crash_points: usize,
    pub states: usize,
    pub truncated: bool,
    pub recovery_states: usize,
    pub failures: usize,
    pub vulnerabilities: Seq<VulnerabilityView>,
}

/// What a list of vulnerabilities says.
pub open spec fn vulnerabilities_view(v: Seq<Vulnerability>) -> Seq<VulnerabilityView> {
    Seq::new(v.len(), |i: int| v[i]@)
}

impl View for Report {
    type V = ReportView;

    open spec fn view(&self) -> ReportView {
        ReportView {
            profile: self.profile,
            ops: self.ops,
            crash_points: self.crash_points,
            states: self.states,
            truncated: self.truncated,
            recovery_states: self.recovery_states,
            failures: self.failures,
            vulnerabilities: vulnerabilities_view(self.vulnerabilities@),
        }
    }
}

/// The name of a profile in a report.
pub open spec fn profile_name(p: Profile) -> Seq<char> {
    match p {
        Profile::Posix => "posix"@,
        Profile::Ext4Ordered => "ext4-ordered"@,
    }
}

/// The name of a kind of bug in a report.
pub open spec fn kind_name(k: Kind) -> Seq<char> {
    match k {
        Kind::TornWrite => "torn write"@,
        Kind::Reordering => "reordering"@,
        Kind::Unsynced => "unsynced"@,
        Kind::NonAtomic => "non-atomic update"@,
    }
}

/// The first line of a report.
pub open spec fn summary_line(r: ReportView) -> Seq<char> {
    decimal(r.ops as nat) + " ops, "@ + decimal(r.crash_points as nat) + " crash points, "@
        + decimal(r.states as nat) + " unique crash states checked"@ + (if r.recovery_states == 0 {
        ""@
    } else {
        " + "@ + decimal(r.recovery_states as nat) + " during recovery"@
    }) + " ("@ + profile_name(r.profile) + " model)"@ + (if r.truncated {
        " [TRUNCATED: raise --max-states]"@
    } else {
        ""@
    }) + "\n"@
}

/// The line that says how many states failed.
pub open spec fn failure_line(r: ReportView) -> Seq<char> {
    "FAIL: "@ + decimal(r.failures as nat) + " crash states rejected, "@ + decimal(
        r.vulnerabilities.len(),
    ) + " distinct vulnerabilit"@ + (if r.vulnerabilities.len() == 1 {
        "y"@
    } else {
        "ies"@
    }) + ":\n"@
}

/// One line per op, each behind `label`.
pub open spec fn op_lines(label: Seq<char>, r: Seq<char>, v: Seq<OpRefView>, n: int) -> Seq<char>
    decreases n,
{
    if n <= 0 {
        ""@
    } else {
        op_lines(label, r, v, n - 1) + op_line(label, r, v[n - 1])
    }
}

pub open spec fn op_line(label: Seq<char>, r: Seq<char>, o: OpRefView) -> Seq<char> {
    label + r + "#"@ + decimal(o.index as nat) + " "@ + o.op + "\n"@
}

/// The last three lines of what a checker said: the end of its output (the last
/// line of a traceback, say) says the most.
pub open spec fn last_lines(msg: Seq<char>) -> Seq<char> {
    let l = lines(msg);
    joined(
        if l.len() > 3 {
            l.skip(l.len() - 3)
        } else {
            l
        },
        "\n                "@,
    )
}

/// How a vulnerability reads; `n` is its number in the report.
pub open spec fn vulnerability_text(v: VulnerabilityView, n: nat) -> Seq<char> {
    // Ops of a recovery trace are numbered separately, behind an `r`.
    let r = if v.in_recovery is Some {
        "r"@
    } else {
        ""@
    };
    let msg = trim(v.message);
    "\n["@ + decimal(n) + "] "@ + kind_name(v.kind) + (if v.in_recovery is Some {
        " during recovery"@
    } else {
        ""@
    }) + " ("@ + decimal(v.occurrences as nat) + " failing states)\n"@ + (match v.in_recovery {
        Some(k) => "  first crash   after "@ + decimal(k as nat)
            + " workload ops; recovery ran and crashed again\n"@,
        None => ""@,
    }) + (match v.crash_after {
        Some(o) => op_line("  crash after   "@, r, o),
        None => "  crash before the first op\n"@,
    }) + op_lines("  lost          "@, r, v.lost, v.lost.len() as int) + op_lines(
        "  but persisted "@,
        r,
        v.survived,
        v.survived.len() as int,
    ) + (if msg.len() == 0 {
        ""@
    } else {
        "  checker said  "@ + last_lines(msg) + "\n"@
    }) + "  fix           "@ + v.hint + "\n"@
}

/// How the first `n` vulnerabilities read.
pub open spec fn vulnerability_texts(v: Seq<VulnerabilityView>, n: int) -> Seq<char>
    decreases n,
{
    if n <= 0 {
        ""@
    } else {
        vulnerability_texts(v, n - 1) + vulnerability_text(v[n - 1], n as nat)
    }
}

/// How a report reads.
pub open spec fn rendered(r: ReportView) -> Seq<char> {
    summary_line(r) + if r.failures == 0 {
        "OK: the checker accepted every crash state\n"@
    } else {
        failure_line(r) + vulnerability_texts(r.vulnerabilities, r.vulnerabilities.len() as int)
    }
}

fn one_op_line(label: &str, r: &str, o: &OpRef) -> (res: String)
    ensures
        res@ == op_line(label@, r@, o@),
{
    let s = cat(label.to_owned(), r);
    let s = cat(s, "#");
    let s = cat(s, number(o.index).as_str());
    let s = cat(s, " ");
    let s = cat(s, o.op.as_str());
    cat(s, "\n")
}

fn all_op_lines(label: &str, r: &str, v: &Vec<OpRef>) -> (res: String)
    ensures
        res@ == op_lines(label@, r@, refs_view(v@), v@.len() as int),
{
    let mut s: String = "".to_owned();
    let mut i: usize = 0;
    while i < v.len()
        invariant
            i <= v@.len(),
            s@ == op_lines(label@, r@, refs_view(v@), i as int),
        decreases v@.len() - i,
    {
        s = cat(s, one_op_line(label, r, &v[i]).as_str());
        i += 1;
    }
    s
}

fn end_of(msg: &[char]) -> (r: String)
    ensures
        r@ == last_lines(msg@),
{
    let all = lines_of(msg);
    let n: usize = all.len();
    let from: usize = if n > 3 {
        n - 3
    } else {
        0
    };
    let sep = chars_of("\n                ");
    let last = vstd::slice::slice_subrange(all.as_slice(), from, n);
    proof {
        let l = lines(msg@);
        assert(views(last@) =~= if l.len() > 3 {
            l.skip(l.len() - 3)
        } else {
            l
        });
    }
    text_of(join_all(last, sep.as_slice()).as_slice())
}

fn number(n: usize) -> (r: String)
    ensures
        r@ == decimal(n as nat),
{
    decimal_of(n as u64)
}

fn first_crash(in_recovery: Option<usize>) -> (r: String)
    ensures
        r@ == (match in_recovery {
            Some(k) => "  first crash   after "@ + decimal(k as nat)
                + " workload ops; recovery ran and crashed again\n"@,
            None => ""@,
        }),
{
    match in_recovery {
        Some(k) => {
            let s = cat("  first crash   after ".to_owned(), number(k).as_str());
            cat(s, " workload ops; recovery ran and crashed again\n")
        },
        None => "".to_owned(),
    }
}

fn crash_line(after: &Option<OpRef>, r: &str) -> (res: String)
    ensures
        res@ == (match *after {
            Some(o) => op_line("  crash after   "@, r@, o@),
            None => "  crash before the first op\n"@,
        }),
{
    match after {
        Some(o) => one_op_line("  crash after   ", r, o),
        None => "  crash before the first op\n".to_owned(),
    }
}

fn said(message: &str) -> (r: String)
    ensures
        r@ == (if trim(message@).len() == 0 {
            ""@
        } else {
            "  checker said  "@ + last_lines(trim(message@)) + "\n"@
        }),
{
    let c = chars_of(message);
    let msg = trimmed(c.as_slice());
    if msg.len() == 0 {
        "".to_owned()
    } else {
        let s = cat("  checker said  ".to_owned(), end_of(msg).as_str());
        cat(s, "\n")
    }
}

fn describe(v: &Vulnerability, n: usize) -> (res: String)
    ensures
        res@ == vulnerability_text(v@, n as nat),
{
    let (during, r) = if v.in_recovery.is_some() {
        (" during recovery", "r")
    } else {
        ("", "")
    };
    let kind = match v.kind {
        Kind::TornWrite => "torn write",
        Kind::Reordering => "reordering",
        Kind::Unsynced => "unsynced",
        Kind::NonAtomic => "non-atomic update",
    };
    let s = cat("\n[".to_owned(), number(n).as_str());
    let s = cat(s, "] ");
    let s = cat(s, kind);
    let s = cat(s, during);
    let s = cat(s, " (");
    let s = cat(s, number(v.occurrences).as_str());
    let s = cat(s, " failing states)\n");
    let s = cat(s, first_crash(v.in_recovery).as_str());
    let s = cat(s, crash_line(&v.crash_after, r).as_str());
    let s = cat(s, all_op_lines("  lost          ", r, &v.lost).as_str());
    let s = cat(s, all_op_lines("  but persisted ", r, &v.survived).as_str());
    let s = cat(s, said(v.message.as_str()).as_str());
    let s = cat(s, "  fix           ");
    let s = cat(s, v.hint.as_str());
    cat(s, "\n")
}

impl Report {
    /// Whether the checker accepted every crash state.
    pub fn is_clean(&self) -> (r: bool)
        ensures
            r == (self@.failures == 0),
    {
        self.failures == 0
    }

    /// The report as text.
    pub fn render(&self) -> (res: String)
        ensures
            res@ == rendered(self@),
    {
        let s = self.summary();
        if self.is_clean() {
            return cat(s, "OK: the checker accepted every crash state\n");
        }
        let mut t: String = "".to_owned();
        let mut i: usize = 0;
        while i < self.vulnerabilities.len()
            invariant
                i <= self.vulnerabilities@.len(),
                t@ == vulnerability_texts(self@.vulnerabilities, i as int),
            decreases self.vulnerabilities@.len() - i,
        {
            t = cat(t, describe(&self.vulnerabilities[i], i + 1).as_str());
            i += 1;
        }
        let f = cat(self.failed(), t.as_str());
        cat(s, f.as_str())
    }

    fn summary(&self) -> (res: String)
        ensures
            res@ == summary_line(self@),
    {
        let recovery = if self.recovery_states == 0 {
            "".to_owned()
        } else {
            let s = cat(" + ".to_owned(), number(self.recovery_states).as_str());
            cat(s, " during recovery")
        };
        let name = match self.profile {
            Profile::Posix => "posix",
            Profile::Ext4Ordered => "ext4-ordered",
        };
        let cut = if self.truncated {
            " [TRUNCATED: raise --max-states]"
        } else {
            ""
        };
        let s = cat(number(self.ops), " ops, ");
        let s = cat(s, number(self.crash_points).as_str());
        let s = cat(s, " crash points, ");
        let s = cat(s, number(self.states).as_str());
        let s = cat(s, " unique crash states checked");
        let s = cat(s, recovery.as_str());
        let s = cat(s, " (");
        let s = cat(s, name);
        let s = cat(s, " model)");
        let s = cat(s, cut);
        cat(s, "\n")
    }

    fn failed(&self) -> (res: String)
        ensures
            res@ == failure_line(self@),
    {
        let ending = if self.vulnerabilities.len() == 1 {
            "y"
        } else {
            "ies"
        };
        let s = cat("FAIL: ".to_owned(), number(self.failures).as_str());
        let s = cat(s, " crash states rejected, ");
        let s = cat(s, number(self.vulnerabilities.len()).as_str());
        let s = cat(s, " distinct vulnerabilit");
        let s = cat(s, ending);
        cat(s, ":\n")
    }
}

} // verus!
