//! What a report tells its reader.

use crate::explain::{Kind, OpRefView, VulnerabilityView};
use crate::model::Profile;
use crate::report::{
    failure_line, kind_name, last_lines, op_line, op_lines, profile_name, rendered, summary_line,
    vulnerability_text, vulnerability_texts, ReportView,
};
use crate::text::{decimal, joined, lines, trim};
use vstd::prelude::*;

verus! {

/// A text holds a passage.
pub open spec fn tells(s: Seq<char>, passage: Seq<char>) -> bool {
    exists|a: Seq<char>, b: Seq<char>| s == #[trigger] holding(a, passage, b)
}

/// A passage between two others.
pub open spec fn holding(a: Seq<char>, passage: Seq<char>, b: Seq<char>) -> Seq<char> {
    a + passage + b
}

pub proof fn lemma_tells(s: Seq<char>, a: Seq<char>, passage: Seq<char>, b: Seq<char>)
    requires
        s =~= a + passage + b,
    ensures
        tells(s, passage),
{
    assert(s == holding(a, passage, b));
}

pub proof fn lemma_tells_through(s: Seq<char>, mid: Seq<char>, passage: Seq<char>)
    requires
        tells(s, mid),
        tells(mid, passage),
    ensures
        tells(s, passage),
{
    let (a, b) = choose|a: Seq<char>, b: Seq<char>| s == #[trigger] holding(a, mid, b);
    let (c, d) = choose|c: Seq<char>, d: Seq<char>| mid == #[trigger] holding(c, passage, d);
    lemma_tells(s, a + c, passage, d + b);
}

/// A report without failures says so and tells nothing else; one with failures
/// tells how many states were rejected, and every vulnerability under its number.
pub proof fn law_reports_tell_every_vulnerability(r: ReportView, k: int)
    requires
        0 <= k < r.vulnerabilities.len(),
    ensures
        r.failures == 0 ==> rendered(r) == summary_line(r)
            + "OK: the checker accepted every crash state\n"@,
        r.failures > 0 ==> tells(
            rendered(r),
            "FAIL: "@ + decimal(r.failures as nat) + " crash states rejected, "@ + decimal(
                r.vulnerabilities.len(),
            ) + " distinct vulnerabilit"@,
        ),
        r.failures > 0 ==> tells(
            rendered(r),
            vulnerability_text(r.vulnerabilities[k], (k + 1) as nat),
        ),
{
    let n = r.vulnerabilities.len() as int;
    if r.failures > 0 {
        let all = vulnerability_texts(r.vulnerabilities, n);
        let ending = (if r.vulnerabilities.len() == 1 {
            "y"@
        } else {
            "ies"@
        });
        let passage = "FAIL: "@ + decimal(r.failures as nat) + " crash states rejected, "@
            + decimal(r.vulnerabilities.len()) + " distinct vulnerabilit"@;
        lemma_tells(rendered(r), summary_line(r), passage, ending + ":\n"@ + all);
        lemma_texts(r.vulnerabilities, n, k);
        lemma_tells(rendered(r), summary_line(r) + failure_line(r), all, Seq::empty());
        lemma_tells_through(
            rendered(r),
            all,
            vulnerability_text(r.vulnerabilities[k], (k + 1) as nat),
        );
    }
}

proof fn lemma_texts(v: Seq<VulnerabilityView>, n: int, k: int)
    requires
        0 <= k < n <= v.len(),
    ensures
        tells(vulnerability_texts(v, n), vulnerability_text(v[k], (k + 1) as nat)),
    decreases n,
{
    let passage = vulnerability_text(v[k], (k + 1) as nat);
    let before = vulnerability_texts(v, n - 1);
    let all = vulnerability_texts(v, n);
    if k < n - 1 {
        lemma_texts(v, n - 1, k);
        lemma_tells(all, Seq::empty(), before, vulnerability_text(v[n - 1], n as nat));
        lemma_tells_through(all, before, passage);
    } else {
        lemma_tells(all, before, passage, Seq::empty());
    }
}

/// The first line of a report tells its numbers: the ops, the crash points, the
/// states that were checked, those during recovery if there were any, the profile,
/// and whether the enumeration was cut short.
pub proof fn law_summaries_tell_the_numbers(r: ReportView)
    ensures
        tells(
            summary_line(r),
            decimal(r.ops as nat) + " ops, "@ + decimal(r.crash_points as nat)
                + " crash points, "@ + decimal(r.states as nat) + " unique crash states checked"@,
        ),
        r.recovery_states > 0 ==> tells(
            summary_line(r),
            " + "@ + decimal(r.recovery_states as nat) + " during recovery"@,
        ),
        r.profile == Profile::Posix ==> tells(summary_line(r), " ("@ + "posix"@ + " model)"@),
        r.profile == Profile::Ext4Ordered ==> tells(
            summary_line(r),
            " ("@ + "ext4-ordered"@ + " model)"@,
        ),
        r.truncated ==> tells(summary_line(r), " [TRUNCATED: raise --max-states]"@),
        r.recovery_states == 0 && !r.truncated ==> summary_line(r) == decimal(r.ops as nat)
            + " ops, "@ + decimal(r.crash_points as nat) + " crash points, "@ + decimal(
            r.states as nat,
        ) + " unique crash states checked"@ + " ("@ + profile_name(r.profile) + " model)"@ + "\n"@,
{
    reveal_strlit("");
    let head = decimal(r.ops as nat) + " ops, "@ + decimal(r.crash_points as nat)
        + " crash points, "@ + decimal(r.states as nat) + " unique crash states checked"@;
    let rec = " + "@ + decimal(r.recovery_states as nat) + " during recovery"@;
    let mid = if r.recovery_states == 0 {
        ""@
    } else {
        rec
    };
    let model = " ("@ + profile_name(r.profile) + " model)"@;
    let cut = if r.truncated {
        " [TRUNCATED: raise --max-states]"@
    } else {
        ""@
    };
    let s = summary_line(r);
    assert(s =~= head + mid + model + cut + "\n"@);
    lemma_tells(s, Seq::empty(), head, mid + model + cut + "\n"@);
    if r.recovery_states > 0 {
        lemma_tells(s, head, rec, model + cut + "\n"@);
    }
    lemma_tells(s, head + mid, model, cut + "\n"@);
    if r.truncated {
        lemma_tells(s, head + mid + model, cut, "\n"@);
    }
    if r.recovery_states == 0 && !r.truncated {
        assert(s =~= head + " ("@ + profile_name(r.profile) + " model)"@ + "\n"@);
    }
}

/// The op as it is told: its number, behind an `r` if it is one of a recovery, and
/// what it does.
pub open spec fn told_op(v: VulnerabilityView, o: OpRefView) -> Seq<char> {
    (if v.in_recovery is Some {
        "r"@
    } else {
        ""@
    }) + "#"@ + decimal(o.index as nat) + " "@ + o.op + "\n"@
}

proof fn lemma_op_lines(label: Seq<char>, r: Seq<char>, v: Seq<OpRefView>, n: int, k: int)
    requires
        0 <= k < n <= v.len(),
    ensures
        tells(op_lines(label, r, v, n), op_line(label, r, v[k])),
    decreases n,
{
    let before = op_lines(label, r, v, n - 1);
    let all = op_lines(label, r, v, n);
    if k < n - 1 {
        lemma_op_lines(label, r, v, n - 1, k);
        lemma_tells(all, Seq::empty(), before, op_line(label, r, v[n - 1]));
        lemma_tells_through(all, before, op_line(label, r, v[k]));
    } else {
        lemma_tells(all, before, op_line(label, r, v[k]), Seq::empty());
    }
}

/// A vulnerability tells its kind and how often it occurred; the op before the
/// crash; every op that was lost and every one named that persisted; the end of
/// what the checker said; and how to fix it. In a recovery it tells of the first
/// crash as well.
#[verifier::spinoff_prover]
pub proof fn law_vulnerabilities_tell_their_story(v: VulnerabilityView, n: nat, k: int)
    ensures
        v.kind == Kind::TornWrite ==> tells(vulnerability_text(v, n), "] "@ + "torn write"@),
        v.kind == Kind::Reordering ==> tells(vulnerability_text(v, n), "] "@ + "reordering"@),
        v.kind == Kind::Unsynced ==> tells(vulnerability_text(v, n), "] "@ + "unsynced"@),
        v.kind == Kind::NonAtomic ==> tells(
            vulnerability_text(v, n),
            "] "@ + "non-atomic update"@,
        ),
        tells(
            vulnerability_text(v, n),
            " ("@ + decimal(v.occurrences as nat) + " failing states)\n"@,
        ),
        v.in_recovery matches Some(first) ==> tells(
            vulnerability_text(v, n),
            "  first crash   after "@ + decimal(first as nat) + " workload ops"@,
        ),
        v.crash_after matches Some(o) ==> tells(
            vulnerability_text(v, n),
            "  crash after   "@ + told_op(v, o),
        ),
        v.crash_after is None ==> tells(
            vulnerability_text(v, n),
            "  crash before the first op\n"@,
        ),
        0 <= k < v.lost.len() ==> tells(
            vulnerability_text(v, n),
            "  lost          "@ + told_op(v, v.lost[k]),
        ),
        0 <= k < v.survived.len() ==> tells(
            vulnerability_text(v, n),
            "  but persisted "@ + told_op(v, v.survived[k]),
        ),
        trim(v.message).len() > 0 ==> tells(
            vulnerability_text(v, n),
            "  checker said  "@ + last_lines(trim(v.message)) + "\n"@,
        ),
        tells(vulnerability_text(v, n), "  fix           "@ + v.hint + "\n"@),
{
    let s = vulnerability_text(v, n);
    lemma_three_parts(v, n);
    lemma_tells(s, Seq::empty(), first_part(v, n), op_part(v) + last_part(v));
    lemma_tells(s, first_part(v, n), op_part(v), last_part(v));
    lemma_tells(s, first_part(v, n) + op_part(v), last_part(v), Seq::empty());
    lemma_first_part(v, n);
    lemma_op_part(v, k);
    lemma_last_part(v);
    lemma_tells_through(s, first_part(v, n), "] "@ + kind_name(v.kind));
    lemma_tells_through(
        s,
        first_part(v, n),
        " ("@ + decimal(v.occurrences as nat) + " failing states)\n"@,
    );
    match v.in_recovery {
        Some(first) => {
            lemma_tells_through(
                s,
                first_part(v, n),
                "  first crash   after "@ + decimal(first as nat) + " workload ops"@,
            );
        },
        None => {},
    }
    match v.crash_after {
        Some(o) => {
            lemma_tells_through(s, op_part(v), "  crash after   "@ + told_op(v, o));
        },
        None => {
            lemma_tells_through(s, op_part(v), "  crash before the first op\n"@);
        },
    }
    if 0 <= k < v.lost.len() {
        lemma_tells_through(s, op_part(v), "  lost          "@ + told_op(v, v.lost[k]));
    }
    if 0 <= k < v.survived.len() {
        lemma_tells_through(s, op_part(v), "  but persisted "@ + told_op(v, v.survived[k]));
    }
    if trim(v.message).len() > 0 {
        lemma_tells_through(
            s,
            last_part(v),
            "  checker said  "@ + last_lines(trim(v.message)) + "\n"@,
        );
    }
    lemma_tells_through(s, last_part(v), "  fix           "@ + v.hint + "\n"@);
}

/// What a vulnerability tells first: its kind, and how often it occurred.
spec fn first_part(v: VulnerabilityView, n: nat) -> Seq<char> {
    "\n["@ + decimal(n) + "] "@ + kind_name(v.kind) + (if v.in_recovery is Some {
        " during recovery"@
    } else {
        ""@
    }) + " ("@ + decimal(v.occurrences as nat) + " failing states)\n"@ + (match v.in_recovery {
        Some(k) => "  first crash   after "@ + decimal(k as nat)
            + " workload ops; recovery ran and crashed again\n"@,
        None => ""@,
    })
}

/// The letter before the numbers of the ops of a recovery.
spec fn letter(v: VulnerabilityView) -> Seq<char> {
    if v.in_recovery is Some {
        "r"@
    } else {
        ""@
    }
}

/// What a vulnerability tells of the ops.
spec fn op_part(v: VulnerabilityView) -> Seq<char> {
    (match v.crash_after {
        Some(o) => op_line("  crash after   "@, letter(v), o),
        None => "  crash before the first op\n"@,
    }) + op_lines("  lost          "@, letter(v), v.lost, v.lost.len() as int) + op_lines(
        "  but persisted "@,
        letter(v),
        v.survived,
        v.survived.len() as int,
    )
}

/// What a vulnerability tells last.
spec fn last_part(v: VulnerabilityView) -> Seq<char> {
    let msg = trim(v.message);
    (if msg.len() == 0 {
        ""@
    } else {
        "  checker said  "@ + last_lines(msg) + "\n"@
    }) + "  fix           "@ + v.hint + "\n"@
}

#[verifier::spinoff_prover]
proof fn lemma_three_parts(v: VulnerabilityView, n: nat)
    ensures
        vulnerability_text(v, n) == first_part(v, n) + op_part(v) + last_part(v),
{
    let front = first_part(v, n);
    let crash = match v.crash_after {
        Some(o) => op_line("  crash after   "@, letter(v), o),
        None => "  crash before the first op\n"@,
    };
    let lost = op_lines("  lost          "@, letter(v), v.lost, v.lost.len() as int);
    let lived = op_lines("  but persisted "@, letter(v), v.survived, v.survived.len() as int);
    let msg = trim(v.message);
    let said = if msg.len() == 0 {
        ""@
    } else {
        "  checker said  "@ + last_lines(msg) + "\n"@
    };
    let fix = "  fix           "@;
    let end = "\n"@;
    assert(vulnerability_text(v, n) == front + crash + lost + lived + said + fix + v.hint + end);
    lemma_regroup(front, crash, lost, lived, said, fix, v.hint, end);
}

proof fn lemma_regroup(
    front: Seq<char>,
    crash: Seq<char>,
    lost: Seq<char>,
    lived: Seq<char>,
    said: Seq<char>,
    fix: Seq<char>,
    hint: Seq<char>,
    end: Seq<char>,
)
    ensures
        front + crash + lost + lived + said + fix + hint + end == front + (crash + lost + lived) + (
        said + fix + hint + end),
{
    assert(front + crash + lost + lived =~= front + (crash + lost + lived));
    let a = front + (crash + lost + lived);
    assert(a + said + fix + hint + end =~= a + (said + fix + hint + end));
}

#[verifier::spinoff_prover]
proof fn lemma_first_part(v: VulnerabilityView, n: nat)
    ensures
        tells(first_part(v, n), "] "@ + kind_name(v.kind)),
        tells(first_part(v, n), " ("@ + decimal(v.occurrences as nat) + " failing states)\n"@),
        v.in_recovery matches Some(first) ==> tells(
            first_part(v, n),
            "  first crash   after "@ + decimal(first as nat) + " workload ops"@,
        ),
{
    let s = first_part(v, n);
    let number = "\n["@ + decimal(n);
    let kind = "] "@ + kind_name(v.kind);
    let during = if v.in_recovery is Some {
        " during recovery"@
    } else {
        ""@
    };
    let seen = " ("@ + decimal(v.occurrences as nat) + " failing states)\n"@;
    let first = match v.in_recovery {
        Some(k) => "  first crash   after "@ + decimal(k as nat)
            + " workload ops; recovery ran and crashed again\n"@,
        None => ""@,
    };
    let head = number + kind + during;
    assert("\n["@ + decimal(n) + "] "@ + kind_name(v.kind) =~= number + kind);
    assert(s =~= head + seen + first);
    lemma_tells(s, number, kind, during + seen + first);
    lemma_tells(s, head, seen, first);
    match v.in_recovery {
        Some(k) => {
            reveal_strlit(" workload ops");
            reveal_strlit(" workload ops; recovery ran and crashed again\n");
            let words = "  first crash   after "@ + decimal(k as nat) + " workload ops"@;
            let rest = first.skip(words.len() as int);
            assert(first =~= words + rest);
            lemma_tells(first, Seq::empty(), words, rest);
            lemma_tells(s, head + seen, first, Seq::empty());
            lemma_tells_through(s, first, words);
        },
        None => {},
    }
}

#[verifier::spinoff_prover]
proof fn lemma_op_part(v: VulnerabilityView, k: int)
    ensures
        v.crash_after matches Some(o) ==> tells(op_part(v), "  crash after   "@ + told_op(v, o)),
        v.crash_after is None ==> tells(op_part(v), "  crash before the first op\n"@),
        0 <= k < v.lost.len() ==> tells(op_part(v), "  lost          "@ + told_op(v, v.lost[k])),
        0 <= k < v.survived.len() ==> tells(
            op_part(v),
            "  but persisted "@ + told_op(v, v.survived[k]),
        ),
{
    let s = op_part(v);
    let r = letter(v);
    let crash = match v.crash_after {
        Some(o) => op_line("  crash after   "@, r, o),
        None => "  crash before the first op\n"@,
    };
    let lost = op_lines("  lost          "@, r, v.lost, v.lost.len() as int);
    let lived = op_lines("  but persisted "@, r, v.survived, v.survived.len() as int);
    lemma_tells(s, Seq::empty(), crash, lost + lived);
    lemma_tells(s, crash, lost, lived);
    lemma_tells(s, crash + lost, lived, Seq::empty());
    match v.crash_after {
        Some(o) => {
            assert(crash =~= "  crash after   "@ + told_op(v, o));
        },
        None => {},
    }
    if 0 <= k < v.lost.len() {
        lemma_op_lines("  lost          "@, r, v.lost, v.lost.len() as int, k);
        assert(op_line("  lost          "@, r, v.lost[k]) =~= "  lost          "@ + told_op(
            v,
            v.lost[k],
        ));
        lemma_tells_through(s, lost, op_line("  lost          "@, r, v.lost[k]));
    }
    if 0 <= k < v.survived.len() {
        lemma_op_lines("  but persisted "@, r, v.survived, v.survived.len() as int, k);
        assert(op_line("  but persisted "@, r, v.survived[k]) =~= "  but persisted "@ + told_op(
            v,
            v.survived[k],
        ));
        lemma_tells_through(s, lived, op_line("  but persisted "@, r, v.survived[k]));
    }
}

proof fn lemma_last_part(v: VulnerabilityView)
    ensures
        trim(v.message).len() > 0 ==> tells(
            last_part(v),
            "  checker said  "@ + last_lines(trim(v.message)) + "\n"@,
        ),
        tells(last_part(v), "  fix           "@ + v.hint + "\n"@),
{
    let s = last_part(v);
    let msg = trim(v.message);
    let said = if msg.len() == 0 {
        ""@
    } else {
        "  checker said  "@ + last_lines(msg) + "\n"@
    };
    let fix = "  fix           "@ + v.hint + "\n"@;
    lemma_tells(s, said, fix, Seq::empty());
    lemma_tells(s, Seq::empty(), said, fix);
}

/// Of what a checker said the last three lines are told, or all if there are
/// fewer.
pub proof fn law_the_end_of_the_message_is_told(msg: Seq<char>)
    ensures
        lines(msg).len() == 1 ==> last_lines(msg) == lines(msg)[0],
        lines(msg).len() == 2 ==> last_lines(msg) == lines(msg)[0] + "\n                "@ + lines(
            msg,
        )[1],
        lines(msg).len() >= 3 ==> {
            let l = lines(msg);
            let n = l.len() as int;
            last_lines(msg) == l[n - 3] + "\n                "@ + l[n - 2]
                + "\n                "@ + l[n - 1]
        },
{
    let l = lines(msg);
    let n = l.len() as int;
    let sep = "\n                "@;
    reveal_with_fuel(joined, 3);
    if n == 2 {
        assert(l.drop_last()[0] == l[0]);
    }
    if n >= 3 {
        let t = if n > 3 {
            l.skip(n - 3)
        } else {
            l
        };
        assert(t[0] == l[n - 3] && t[1] == l[n - 2] && t[2] == l[n - 1]);
        assert(t.drop_last().drop_last()[0] == t[0]);
        assert(t.drop_last().last() == t[1]);
        assert(t.last() == t[2]);
        assert(joined(t, sep) == joined(t.drop_last(), sep) + sep + t[2]);
        assert(joined(t.drop_last(), sep) == joined(t.drop_last().drop_last(), sep) + sep + t[1]);
    }
}

} // verus!
