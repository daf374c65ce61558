//! What a failing crash state means: which operations were lost, what kind of
//! bug that is, and how to fix it.

use crate::model::{Micro, MicroView};
use crate::paths::{parent, split};
use crate::program::{micro_op_sound, ops_of, program_sound, Program, ProgramView};
use crate::text::{
    cat, chars_of, debug_quoted, decimal, decimal_of, quoted, same_str, text_of, texts, trim,
    trimmed,
};
use crate::trace::{described, op_ends, op_path, ops_view, show, shown, Op, OpView};
use vstd::prelude::*;

verus! {

/// What kind of bug a failure is.
#[derive(Debug, Clone, Copy, PartialEq, Eq, Structural)]
pub enum Kind {
    /// Part of a single write persisted and part did not.
    TornWrite,
    /// A later operation persisted while an earlier one was lost.
    Reordering,
    /// Acknowledged state was lost because it was never made durable.
    Unsynced,
    /// The state is invalid even with every operation persisted: the workload
    /// passes through a state it cannot recover from (e.g. truncate-then-write).
    NonAtomic,
}

/// A trace op, by index, with a readable description.
#[derive(Debug, Clone, PartialEq, Eq)]
pub struct OpRef {
    pub index: usize,
    pub op: String,
}

/// A trace op, by index, with a readable description.
pub struct OpRefView {
    pub index: usize,
    pub op: Seq<char>,
}

impl View for OpRef {
    type V = OpRefView;

    open spec fn view(&self) -> OpRefView {
        OpRefView { index: self.index, op: self.op@ }
    }
}

/// What a list of references says.
pub open spec fn refs_view(v: Seq<OpRef>) -> Seq<OpRefView> {
    Seq::new(v.len(), |i: int| v[i]@)
}

/// One minimized, explained crash-consistency bug.
#[derive(Debug, Clone, PartialEq, Eq)]
pub struct Vulnerability {
    pub kind: Kind,
    /// The crash happened after this many ops completed.
    pub crash_point: usize,
    /// The op that completed just before the crash.
    pub crash_after: Option<OpRef>,
    /// Ops whose effect (in whole or in part) must be lost to trigger it.
    pub lost: Vec<OpRef>,
    /// Later, non-durable ops that nevertheless persisted.
    pub survived: Vec<OpRef>,
    /// The checker's complaint on the minimized state.
    pub message: String,
    pub hint: String,
    /// Failing states attributed to this vulnerability.
    pub occurrences: usize,
    /// Files whose lost operations trigger it.
    pub files: Vec<String>,
    /// `Some(k)`: a second crash, during recovery from a first crash after
    /// `k` workload ops. `crash_after`, `lost` and `survived` then refer to
    /// the recovery's own operations.
    pub in_recovery: Option<usize>,
}

/// A vulnerability, over mathematical values.
pub struct VulnerabilityView {
    pub kind: Kind,
    pub crash_point: usize,
    pub crash_after: Option<OpRefView>,
    pub lost: Seq<OpRefView>,
    pub survived: Seq<OpRefView>,
    pub message: Seq<char>,
    pub hint: Seq<char>,
    pub occurrences: usize,
    pub files: Seq<Seq<char>>,
    pub in_recovery: Option<usize>,
}

impl View for Vulnerability {
    type V = VulnerabilityView;

    open spec fn view(&self) -> VulnerabilityView {
        VulnerabilityView {
            kind: self.kind,
            crash_point: self.crash_point,
            crash_after: match self.crash_after {
                Some(o) => Some(o@),
                None => None,
            },
            lost: refs_view(self.lost@),
            survived: refs_view(self.survived@),
            message: self.message@,
            hint: self.hint@,
            occurrences: self.occurrences,
            files: texts(self.files@),
            in_recovery: self.in_recovery,
        }
    }
}

/// Adds a number to the end of a list, unless it stands there.
pub open spec fn push_new(v: Seq<usize>, x: usize) -> Seq<usize> {
    if v.len() > 0 && v.last() == x {
        v
    } else {
        v.push(x)
    }
}

/// The ops that lost a micro-op among the first `n`.
pub open spec fn lost_upto(p: ProgramView, s: Seq<bool>, n: int) -> Seq<usize>
    decreases n,
{
    if n <= 0 {
        Seq::empty()
    } else {
        let before = lost_upto(p, s, n - 1);
        if s[n - 1] {
            before
        } else {
            push_new(before, p.micro[n - 1].op)
        }
    }
}

/// The ops that lost a micro-op.
pub open spec fn lost_of(p: ProgramView, s: Seq<bool>) -> Seq<usize> {
    lost_upto(p, s, s.len() as int)
}

/// The first lost micro-op from index `i` on; the length if there is none.
pub open spec fn first_lost(s: Seq<bool>, i: int) -> int
    decreases s.len() - i,
{
    if i >= s.len() || !s[i] {
        i
    } else {
        first_lost(s, i + 1)
    }
}

/// The ops not in `lost` that persisted, without a barrier, from micro-op
/// `first` up to `n`.
pub open spec fn survived_upto(
    p: ProgramView,
    point: int,
    s: Seq<bool>,
    lost: Seq<usize>,
    first: int,
    n: int,
) -> Seq<usize>
    decreases n - first,
{
    if n <= first {
        Seq::empty()
    } else {
        let before = survived_upto(p, point, s, lost, first, n - 1);
        let x = p.micro[n - 1];
        if s[n - 1] && x.durable_at >= point && !lost.contains(x.op) {
            push_new(before, x.op)
        } else {
            before
        }
    }
}

/// Whether one of `lost` is a write of which some data persisted.
pub open spec fn is_torn(
    p: ProgramView,
    ops: Seq<OpView>,
    s: Seq<bool>,
    lost: Seq<usize>,
) -> bool {
    exists|j: int|
        0 <= j < s.len() && (#[trigger] s[j]) && p.micro[j].m is Write && lost.contains(
            p.micro[j].op,
        ) && ops[p.micro[j].op as int] is Write
}

/// What kind of bug it is that `lost` was lost while `survivors` persisted.
pub open spec fn kind_of(
    nothing_lost: bool,
    durability: bool,
    torn: bool,
    survivors: Seq<usize>,
) -> Kind {
    if nothing_lost {
        Kind::NonAtomic
    } else if durability {
        Kind::Unsynced
    } else if torn {
        Kind::TornWrite
    } else if survivors.len() > 0 {
        Kind::Reordering
    } else {
        Kind::Unsynced
    }
}

/// A reference to op `i`.
pub open spec fn ref_to(ops: Seq<OpView>, i: usize) -> OpRefView {
    OpRefView { index: i, op: described(ops[i as int]) }
}

/// References to ops.
pub open spec fn refs_to(ops: Seq<OpView>, v: Seq<usize>) -> Seq<OpRefView> {
    Seq::new(v.len(), |i: int| ref_to(ops, v[i]))
}

/// At most the first five.
pub open spec fn first_five(v: Seq<usize>) -> Seq<usize> {
    if v.len() > 5 {
        v.take(5)
    } else {
        v
    }
}

/// An op as it is quoted.
pub open spec fn quote(op: OpView) -> Seq<char> {
    "`"@ + described(op) + "`"@
}

/// The path an op is about, or the root.
pub open spec fn path_or_root(op: OpView) -> Seq<char> {
    match op_path(op) {
        Some(path) => path,
        None => ""@,
    }
}

/// The first rename, among `survivors` from `k` on, of the file shown as `path`.
pub open spec fn renamed_in(
    ops: Seq<OpView>,
    survivors: Seq<usize>,
    path: Seq<char>,
    k: int,
) -> Option<usize>
    decreases survivors.len() - k,
{
    if k >= survivors.len() {
        None
    } else {
        match ops[survivors[k] as int] {
            OpView::Rename { from, .. } => if shown(from) == path {
                Some(survivors[k])
            } else {
                renamed_in(ops, survivors, path, k + 1)
            },
            _ => renamed_in(ops, survivors, path, k + 1),
        }
    }
}

/// What was acknowledged last before a crash, as part of a hint.
pub open spec fn acknowledged(p: ProgramView, point: int) -> Seq<char> {
    let n = p.marks_before[point];
    if n == 0 {
        ""@
    } else {
        " and before acknowledging ("@ + debug_quoted(trim(p.marks[n - 1])) + ")"@
    }
}

/// The hint for a state in which nothing was lost.
pub open spec fn hint_nothing_lost(ops: Seq<OpView>, point: int) -> Seq<char> {
    if point == 0 {
        "the checker rejects the initial state, before any operation ran: the checker (or the initial directory) is wrong"@
    } else {
        "the state right after "@ + quote(ops[point - 1])
            + " is rejected even with every operation persisted, so this update is not atomic: build the new state in a temp file, fsync it, and rename it into place"@
    }
}

/// The hint for state that was never made durable.
pub open spec fn hint_unsynced(p: ProgramView, op: OpView, m: MicroView, point: int) -> Seq<char> {
    let ack = acknowledged(p, point);
    if m is Write || m is SetLen {
        "fsync `"@ + shown(path_or_root(op)) + "` after "@ + quote(op) + ack
    } else {
        let changed = match op {
            OpView::Rename { to, .. } => to,
            _ => path_or_root(op),
        };
        "fsync the directory `"@ + shown(parent(changed)) + "` after "@ + quote(op) + ack
    }
}

/// The hint for data that was lost while later operations persisted.
pub open spec fn hint_data(
    ops: Seq<OpView>,
    op: OpView,
    kind: Kind,
    survivors: Seq<usize>,
) -> Seq<char> {
    let path = shown(path_or_root(op));
    if kind == Kind::Reordering {
        match renamed_in(ops, survivors, path, 0) {
            Some(i) => "fsync `"@ + path + "` before "@ + quote(ops[i as int]) + " (op #"@
                + decimal(i as nat)
                + "); the rename reached disk before the data it points to"@,
            None => quote(op) + " can reach disk after later writes; fsync `"@ + path
                + "` before anything that depends on it"@,
        }
    } else {
        quote(op) + " was not durable at the crash; fsync `"@ + path
            + "` before acknowledging it"@
    }
}

/// How to fix a bug whose first lost micro-op is `first`, if anything was lost.
pub open spec fn hint_of(
    p: ProgramView,
    ops: Seq<OpView>,
    kind: Kind,
    point: int,
    first: Option<int>,
    survivors: Seq<usize>,
) -> Seq<char> {
    match first {
        None => hint_nothing_lost(ops, point),
        Some(j) => {
            let m = p.micro[j].m;
            let op = ops[p.micro[j].op as int];
            if kind == Kind::Unsynced {
                hint_unsynced(p, op, m, point)
            } else if kind == Kind::TornWrite {
                quote(op)
                    + " spans several blocks and a crash can persist only some of them; detect torn records with a checksum, or write a temp file, fsync it, and rename it into place"@
            } else {
                match m {
                    MicroView::Link { .. } => hint_entry(op),
                    MicroView::Unlink { .. } => hint_entry(op),
                    MicroView::Rename { .. } => match op {
                        OpView::Rename { to, .. } => "fsync the directory `"@ + shown(parent(to))
                            + "` after "@ + quote(op)
                            + "; until then the rename can be undone"@,
                        _ => quote(op) + " was lost in the crash"@,
                    },
                    MicroView::Write { .. } => hint_data(ops, op, kind, survivors),
                    MicroView::SetLen { .. } => hint_data(ops, op, kind, survivors),
                }
            }
        },
    }
}

/// The hint for a directory entry that was lost.
pub open spec fn hint_entry(op: OpView) -> Seq<char> {
    "fsync the directory `"@ + shown(parent(path_or_root(op))) + "` after "@ + quote(op)
        + " to make the entry durable"@
}

/// What a minimized failing state means.
pub open spec fn explained(
    p: ProgramView,
    ops: Seq<OpView>,
    point: usize,
    s: Seq<bool>,
    message: Seq<char>,
    durability: bool,
) -> VulnerabilityView {
    let first = first_lost(s, 0);
    let nothing = first >= s.len();
    let lost = lost_of(p, s);
    let later = survived_upto(p, point as int, s, lost, first, s.len() as int);
    let kind = kind_of(nothing, durability, is_torn(p, ops, s, lost), later);
    let survivors = if nothing || durability {
        // What else persisted is beside the point.
        Seq::empty()
    } else {
        later
    };
    VulnerabilityView {
        kind,
        crash_point: point,
        crash_after: if point == 0 {
            None
        } else {
            Some(ref_to(ops, (point - 1) as usize))
        },
        lost: refs_to(ops, lost),
        survived: refs_to(ops, first_five(survivors)),
        message,
        hint: hint_of(
            p,
            ops,
            kind,
            point as int,
            if nothing {
                None
            } else {
                Some(first)
            },
            survivors,
        ),
        occurrences: 1,
        files: Seq::empty(),
        in_recovery: None,
    }
}

/// Numbers that are indices of ops.
pub open spec fn are_ops(v: Seq<usize>, ops: Seq<OpView>) -> bool {
    forall|i: int| 0 <= i < v.len() ==> (#[trigger] v[i]) < ops.len()
}

/// Every write ends at an offset that fits 64 bits.
pub open spec fn all_end(ops: Seq<OpView>) -> bool {
    forall|i: int| 0 <= i < ops.len() ==> op_ends(#[trigger] ops[i])
}

/// `v` with `x` at its end, unless it stands there.
fn add_new(v: &mut Vec<usize>, x: usize)
    ensures
        final(v)@ == push_new(old(v)@, x),
{
    let there = v.len() > 0 && v[v.len() - 1] == x;
    if !there {
        v.push(x);
    }
}

/// Whether a number is in a list.
pub(crate) fn is_in(v: &Vec<usize>, x: usize) -> (r: bool)
    ensures
        r == v@.contains(x),
{
    let mut i: usize = 0;
    while i < v.len()
        invariant
            i <= v@.len(),
            forall|k: int| 0 <= k < i ==> v@[k] != x,
        decreases v@.len() - i,
    {
        if v[i] == x {
            return true;
        }
        i += 1;
    }
    false
}

/// The ops that lost a micro-op.
pub fn lost_ops(p: &Program, persisted: &Vec<bool>) -> (r: Vec<usize>)
    requires
        persisted@.len() <= p@.micro.len(),
    ensures
        r@ == lost_of(p@, persisted@),
{
    let n: usize = persisted.len();
    let mut r: Vec<usize> = Vec::new();
    let mut j: usize = 0;
    while j < n
        invariant
            j <= n,
            n == persisted@.len(),
            n <= p.micro@.len(),
            r@ == lost_upto(p@, persisted@, j as int),
        decreases n - j,
    {
        if !persisted[j] {
            assert(p.micro@[j as int]@ == p@.micro[j as int]);
            add_new(&mut r, p.micro[j].op);
        }
        j += 1;
    }
    r
}

/// A reference to op `i`.
pub fn op_ref(ops: &Vec<Op>, i: usize) -> (r: OpRef)
    requires
        i < ops@.len(),
        all_end(ops_view(ops@)),
    ensures
        r@ == ref_to(ops_view(ops@), i),
{
    assert(op_ends(ops_view(ops@)[i as int]));
    OpRef { index: i, op: ops[i].describe() }
}

fn op_refs(ops: &Vec<Op>, v: &Vec<usize>, limit: usize) -> (r: Vec<OpRef>)
    requires
        are_ops(v@, ops_view(ops@)),
        all_end(ops_view(ops@)),
        limit <= v@.len(),
    ensures
        refs_view(r@) == refs_to(ops_view(ops@), v@.take(limit as int)),
{
    let mut r: Vec<OpRef> = Vec::new();
    let mut i: usize = 0;
    while i < limit
        invariant
            i <= limit <= v@.len(),
            are_ops(v@, ops_view(ops@)),
            all_end(ops_view(ops@)),
            refs_view(r@) == refs_to(ops_view(ops@), v@.take(i as int)),
        decreases limit - i,
    {
        let ghost before = refs_view(r@);
        assert(v@[i as int] < ops_view(ops@).len());
        let o = op_ref(ops, v[i]);
        r.push(o);
        assert(refs_view(r@) =~= before.push(o@));
        assert(refs_to(ops_view(ops@), v@.take(i + 1)) =~= refs_to(
            ops_view(ops@),
            v@.take(i as int),
        ).push(o@));
        i += 1;
    }
    r
}

fn quote_op(op: &Op) -> (r: String)
    requires
        op_ends(op@),
    ensures
        r@ == quote(op@),
{
    let s = cat("`".to_owned(), op.describe().as_str());
    cat(s, "`")
}

fn path_of(op: &Op) -> (r: &str)
    ensures
        r@ == path_or_root(op@),
{
    match op.path() {
        Some(p) => p,
        None => "",
    }
}

/// The directory of a path, as it is shown.
fn show_parent(path: &str) -> (r: String)
    ensures
        r@ == shown(parent(path@)),
{
    let c = chars_of(path);
    let (dir, _) = split(c.as_slice());
    let d = text_of(dir);
    show(d.as_str()).to_owned()
}

/// What was acknowledged last, quoted already, as part of a hint.
pub fn acknowledgement(quoted: &str) -> (r: String)
    ensures
        r@ == " and before acknowledging ("@ + quoted@ + ")"@,
{
    let s = cat(" and before acknowledging (".to_owned(), quoted);
    cat(s, ")")
}

fn acknowledged_last(p: &Program, point: usize) -> (r: String)
    requires
        program_sound(p@),
        point < p@.op_end.len(),
    ensures
        r@ == acknowledged(p@, point as int),
{
    let n: usize = p.marks_before[point];
    if n == 0 {
        "".to_owned()
    } else {
        assert(n <= p@.marks.len()) by {
            assert(p@.marks_before[point as int] <= p@.marks_before[p@.marks_before.len() - 1]);
        }
        let c = chars_of(p.marks[n - 1].as_str());
        let t = text_of(trimmed(c.as_slice()));
        assert(p@.marks[n - 1] == p.marks@[n - 1]@);
        acknowledgement(quoted(t.as_str()).as_str())
    }
}

fn find_renamed(ops: &Vec<Op>, survivors: &Vec<usize>, path: &str) -> (r: Option<usize>)
    requires
        are_ops(survivors@, ops_view(ops@)),
    ensures
        r == renamed_in(ops_view(ops@), survivors@, path@, 0),
        r matches Some(i) ==> i < ops@.len(),
{
    let mut k: usize = 0;
    while k < survivors.len()
        invariant
            k <= survivors@.len(),
            are_ops(survivors@, ops_view(ops@)),
            renamed_in(ops_view(ops@), survivors@, path@, k as int) == renamed_in(
                ops_view(ops@),
                survivors@,
                path@,
                0,
            ),
        decreases survivors@.len() - k,
    {
        let i: usize = survivors[k];
        assert(survivors@[k as int] < ops_view(ops@).len());
        assert(ops_view(ops@)[i as int] == ops@[i as int]@);
        if let Op::Rename { from, .. } = &ops[i] {
            if same_str(show(from.as_str()), path) {
                return Some(i);
            }
        }
        k += 1;
    }
    None
}

fn hint_for_data(ops: &Vec<Op>, op: &Op, kind: Kind, survivors: &Vec<usize>) -> (r: String)
    requires
        all_end(ops_view(ops@)),
        are_ops(survivors@, ops_view(ops@)),
        op_ends(op@),
    ensures
        r@ == hint_data(ops_view(ops@), op@, kind, survivors@),
{
    let path = show(path_of(op));
    if kind == Kind::Reordering {
        match find_renamed(ops, survivors, path) {
            Some(i) => {
                assert(op_ends(ops_view(ops@)[i as int]));
                let s = cat("fsync `".to_owned(), path);
                let s = cat(s, "` before ");
                let s = cat(s, quote_op(&ops[i]).as_str());
                let s = cat(s, " (op #");
                let s = cat(s, decimal_of(i as u64).as_str());
                cat(s, "); the rename reached disk before the data it points to")
            },
            None => {
                let s = cat(quote_op(op), " can reach disk after later writes; fsync `");
                let s = cat(s, path);
                cat(s, "` before anything that depends on it")
            },
        }
    } else {
        let s = cat(quote_op(op), " was not durable at the crash; fsync `");
        let s = cat(s, path);
        cat(s, "` before acknowledging it")
    }
}

fn hint_for_entry(op: &Op) -> (r: String)
    requires
        op_ends(op@),
    ensures
        r@ == hint_entry(op@),
{
    let s = cat("fsync the directory `".to_owned(), show_parent(path_of(op)).as_str());
    let s = cat(s, "` after ");
    let s = cat(s, quote_op(op).as_str());
    cat(s, " to make the entry durable")
}

fn hint_for_unsynced(p: &Program, op: &Op, m: &Micro, point: usize) -> (r: String)
    requires
        program_sound(p@),
        point < p@.op_end.len(),
        op_ends(op@),
    ensures
        r@ == hint_unsynced(p@, op@, m@, point as int),
{
    let ack = acknowledged_last(p, point);
    let data = match m {
        Micro::Write { .. } => true,
        Micro::SetLen { .. } => true,
        _ => false,
    };
    let s = if data {
        cat("fsync `".to_owned(), show(path_of(op)))
    } else {
        let changed = match op {
            Op::Rename { to, .. } => to.as_str(),
            _ => path_of(op),
        };
        cat("fsync the directory `".to_owned(), show_parent(changed).as_str())
    };
    let s = cat(s, "` after ");
    let s = cat(s, quote_op(op).as_str());
    cat(s, ack.as_str())
}

/// How to fix a bug whose first lost micro-op is `first`, if anything was lost.
pub fn hint(
    p: &Program,
    ops: &Vec<Op>,
    kind: Kind,
    point: usize,
    first: Option<usize>,
    survivors: &Vec<usize>,
) -> (r: String)
    requires
        program_sound(p@),
        ops_of(p@) == ops@.len(),
        all_end(ops_view(ops@)),
        point < p@.op_end.len(),
        first matches Some(j) ==> j < p@.micro.len(),
        are_ops(survivors@, ops_view(ops@)),
    ensures
        r@ == hint_of(
            p@,
            ops_view(ops@),
            kind,
            point as int,
            match first {
                Some(j) => Some(j as int),
                None => None,
            },
            survivors@,
        ),
{
    let j: usize = match first {
        Some(j) => j,
        None => {
            if point == 0 {
                return "the checker rejects the initial state, before any operation ran: the checker (or the initial directory) is wrong".to_owned();
            }
            assert(op_ends(ops_view(ops@)[point - 1]));
            let s = cat("the state right after ".to_owned(), quote_op(&ops[point - 1]).as_str());
            return cat(
                s,
                " is rejected even with every operation persisted, so this update is not atomic: build the new state in a temp file, fsync it, and rename it into place",
            );
        },
    };
    let x = &p.micro[j];
    assert(x@ == p@.micro[j as int]);
    assert(micro_op_sound(p@, j as int));
    assert(op_ends(ops_view(ops@)[x.op as int]));
    let op = &ops[x.op];
    match kind {
        Kind::Unsynced => hint_for_unsynced(p, op, &x.m, point),
        Kind::TornWrite => cat(
            quote_op(op),
            " spans several blocks and a crash can persist only some of them; detect torn records with a checksum, or write a temp file, fsync it, and rename it into place",
        ),
        _ => match &x.m {
            Micro::Link { .. } => hint_for_entry(op),
            Micro::Unlink { .. } => hint_for_entry(op),
            Micro::Rename { .. } => match op {
                Op::Rename { to, .. } => {
                    let s = cat(
                        "fsync the directory `".to_owned(),
                        show_parent(to.as_str()).as_str(),
                    );
                    let s = cat(s, "` after ");
                    let s = cat(s, quote_op(op).as_str());
                    cat(s, "; until then the rename can be undone")
                },
                _ => cat(quote_op(op), " was lost in the crash"),
            },
            Micro::Write { .. } => hint_for_data(ops, op, kind, survivors),
            Micro::SetLen { .. } => hint_for_data(ops, op, kind, survivors),
        },
    }
}

fn find_first_lost(persisted: &Vec<bool>) -> (r: usize)
    ensures
        r == first_lost(persisted@, 0),
        r <= persisted@.len(),
{
    let mut i: usize = 0;
    while i < persisted.len() && persisted[i]
        invariant
            i <= persisted@.len(),
            first_lost(persisted@, i as int) == first_lost(persisted@, 0),
        decreases persisted@.len() - i,
    {
        i += 1;
    }
    i
}

/// The ops not in `lost` that persisted, without a barrier, from micro-op
/// `first` on.
fn find_survivors(
    p: &Program,
    point: usize,
    persisted: &Vec<bool>,
    lost: &Vec<usize>,
    first: usize,
) -> (r: Vec<usize>)
    requires
        program_sound(p@),
        persisted@.len() <= p@.micro.len(),
        first <= persisted@.len(),
    ensures
        r@ == survived_upto(
            p@,
            point as int,
            persisted@,
            lost@,
            first as int,
            persisted@.len() as int,
        ),
        forall|i: int| 0 <= i < r@.len() ==> (#[trigger] r@[i]) < ops_of(p@),
{
    let n: usize = persisted.len();
    let mut r: Vec<usize> = Vec::new();
    let mut j: usize = first;
    while j < n
        invariant
            first <= j <= n,
            n == persisted@.len(),
            n <= p.micro@.len(),
            program_sound(p@),
            r@ == survived_upto(p@, point as int, persisted@, lost@, first as int, j as int),
            forall|i: int| 0 <= i < r@.len() ==> (#[trigger] r@[i]) < ops_of(p@),
        decreases n - j,
    {
        let x = &p.micro[j];
        assert(x@ == p@.micro[j as int]);
        assert(micro_op_sound(p@, j as int));
        if persisted[j] && x.durable_at >= point && !is_in(lost, x.op) {
            add_new(&mut r, x.op);
        }
        j += 1;
    }
    r
}

fn find_torn(p: &Program, ops: &Vec<Op>, persisted: &Vec<bool>, lost: &Vec<usize>) -> (r: bool)
    requires
        program_sound(p@),
        ops_of(p@) == ops@.len(),
        persisted@.len() <= p@.micro.len(),
    ensures
        r == is_torn(p@, ops_view(ops@), persisted@, lost@),
{
    let n: usize = persisted.len();
    let mut j: usize = 0;
    while j < n
        invariant
            j <= n,
            n == persisted@.len(),
            n <= p.micro@.len(),
            program_sound(p@),
            ops_of(p@) == ops@.len(),
            forall|k: int|
                0 <= k < j && (#[trigger] persisted@[k]) && p@.micro[k].m is Write && lost@.contains(
                    p@.micro[k].op,
                ) ==> !(ops_view(ops@)[p@.micro[k].op as int] is Write),
        decreases n - j,
    {
        let x = &p.micro[j];
        assert(x@ == p@.micro[j as int]);
        assert(micro_op_sound(p@, j as int));
        if persisted[j] && is_in(lost, x.op) {
            assert(ops_view(ops@)[x.op as int] == ops@[x.op as int]@);
            if let (Micro::Write { .. }, Op::Write { .. }) = (&x.m, &ops[x.op]) {
                assert(persisted@[j as int]);
                return true;
            }
        }
        j += 1;
    }
    false
}

/// The ops that lost a micro-op are ops of the trace.
pub proof fn lemma_lost_are_ops(p: ProgramView, s: Seq<bool>, n: int)
    requires
        program_sound(p),
        0 <= n <= s.len() <= p.micro.len(),
    ensures
        forall|i: int|
            0 <= i < lost_upto(p, s, n).len() ==> (#[trigger] lost_upto(p, s, n)[i]) < ops_of(p),
    decreases n,
{
    if n > 0 {
        lemma_lost_are_ops(p, s, n - 1);
        assert(micro_op_sound(p, n - 1));
        let before = lost_upto(p, s, n - 1);
        let after = lost_upto(p, s, n);
        assert forall|i: int| 0 <= i < after.len() implies (#[trigger] after[i]) < ops_of(p) by {
            if i < before.len() {
                assert(after[i] == before[i]);
            }
        }
    }
}

/// What a minimized failing state means.
pub fn explain(
    p: &Program,
    ops: &Vec<Op>,
    point: usize,
    persisted: &Vec<bool>,
    message: String,
    durability: bool,
) -> (r: Vulnerability)
    requires
        program_sound(p@),
        ops_of(p@) == ops@.len(),
        all_end(ops_view(ops@)),
        point < p@.op_end.len(),
        persisted@.len() <= p@.micro.len(),
    ensures
        r@ == explained(p@, ops_view(ops@), point, persisted@, message@, durability),
{
    let ghost v = ops_view(ops@);
    let first: usize = find_first_lost(persisted);
    let nothing = first == persisted.len();
    let lost = lost_ops(p, persisted);
    proof {
        lemma_lost_are_ops(p@, persisted@, persisted@.len() as int);
    }
    let later = find_survivors(p, point, persisted, &lost, first);
    let torn = find_torn(p, ops, persisted, &lost);
    let kind = if nothing {
        Kind::NonAtomic
    } else if durability {
        Kind::Unsynced
    } else if torn {
        Kind::TornWrite
    } else if later.len() > 0 {
        Kind::Reordering
    } else {
        Kind::Unsynced
    };
    let survivors: Vec<usize> = if nothing || durability {
        Vec::new()
    } else {
        later
    };
    let first_seen: Option<usize> = if nothing {
        None
    } else {
        Some(first)
    };
    let text = hint(p, ops, kind, point, first_seen, &survivors);
    let crash_after = if point == 0 {
        None
    } else {
        Some(op_ref(ops, point - 1))
    };
    let five: usize = if survivors.len() > 5 {
        5
    } else {
        survivors.len()
    };
    let lost_refs = op_refs(ops, &lost, lost.len());
    let survived_refs = op_refs(ops, &survivors, five);
    let files: Vec<String> = Vec::new();
    proof {
        assert(lost@.take(lost@.len() as int) =~= lost@);
        assert(survivors@.take(five as int) =~= first_five(survivors@));
        assert(texts(files@) =~= Seq::<Seq<char>>::empty());
    }
    Vulnerability {
        kind,
        crash_point: point,
        crash_after,
        lost: lost_refs,
        survived: survived_refs,
        message,
        hint: text,
        occurrences: 1,
        files,
        in_recovery: None,
    }
}

} // verus!
