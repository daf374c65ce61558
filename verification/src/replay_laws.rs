//! How the ops of a trace, its micro-ops and its marks correspond, and what is on
//! disk once some of the micro-ops persisted.

use crate::crash::survived;
use crate::durability_laws::{image_after, lemma_compiled_prefix};
use crate::error::ErrorView;
use crate::laws::law_write_is_cut_at_blocks;
use crate::model::{found, FsView, MicroView, Profile};
use crate::program::{applied_all, block_of, chunks, compiled, compiled_upto, effect, ProgramView};
use crate::trace::{described, OpView, TraceView};
use vstd::prelude::*;

verus! {

/// The marks before a crash point are the marks among the ops before it, in
/// order: each mark op adds its text, and no other op adds any.
pub proof fn law_marks_are_the_marks_before(
    t: TraceView,
    profile: Profile,
    block: u64,
    p: ProgramView,
    i: int,
)
    requires
        compiled(t, profile, block) == Ok::<ProgramView, ErrorView>(p),
        p.micro.len() <= usize::MAX,
        t.ops.len() <= usize::MAX,
        0 <= i < t.ops.len(),
    ensures
        p.marks_before.len() == t.ops.len() + 1,
        p.op_end.len() == t.ops.len() + 1,
        p.marks_before[0] == 0,
        p.marks_before[t.ops.len() as int] == p.marks.len(),
        t.ops[i] matches OpView::Mark { text } ==> p.marks_before[i + 1] == p.marks_before[i] + 1
            && p.marks[p.marks_before[i] as int] == text,
        !(t.ops[i] is Mark) ==> p.marks_before[i + 1] == p.marks_before[i],
{
    let n = t.ops.len() as int;
    lemma_compiled_prefix(t, profile, block, 0, n);
    lemma_compiled_prefix(t, profile, block, i, n);
    lemma_compiled_prefix(t, profile, block, i + 1, n);
    lemma_compiled_prefix(t, profile, block, n, n);
    lemma_marks(t, profile, block, i, n);
    lemma_marks(t, profile, block, i + 1, n);
}

proof fn lemma_marks(t: TraceView, profile: Profile, block: u64, a: int, n: int)
    requires
        0 <= a <= n <= usize::MAX,
        compiled_upto(t, profile, block, n) is Ok,
    ensures
        compiled_upto(t, profile, block, a) is Ok,
        ({
            let x = compiled_upto(t, profile, block, a)->Ok_0;
            let c = compiled_upto(t, profile, block, n)->Ok_0;
            &&& x.marks.len() <= a
            &&& x.marks.len() <= c.marks.len() <= n
            &&& x.marks_before.len() == a + 1
            &&& x.marks_before[a] == x.marks.len()
            &&& c.marks_before.len() == n + 1
            &&& c.marks_before[n] == c.marks.len()
            &&& forall|k: int| 0 <= k < x.marks.len() ==> #[trigger] c.marks[k] == x.marks[k]
        }),
    decreases n,
{
    if n > 0 {
        if a < n {
            lemma_marks(t, profile, block, a, n - 1);
        } else {
            lemma_marks(t, profile, block, n - 1, n - 1);
        }
    }
}

/// The micro-ops of op `i` are what the op does to the image that the workload
/// saw before it, in order, and they are the ones between the ends of op `i - 1`
/// and of op `i`. The workload then sees an image with these changes.
pub proof fn law_each_op_has_its_micro_ops(
    t: TraceView,
    profile: Profile,
    block: u64,
    p: ProgramView,
    i: int,
)
    requires
        compiled(t, profile, block) == Ok::<ProgramView, ErrorView>(p),
        p.micro.len() <= usize::MAX,
        t.ops.len() <= usize::MAX,
        0 <= i < t.ops.len(),
    ensures
        p.profile == profile,
        effect(image_after(t, profile, block, i), t.ops[i], block_of(block)) is Ok,
        ({
            let e = effect(image_after(t, profile, block, i), t.ops[i], block_of(block))->Ok_0;
            &&& p.op_end[i + 1] == p.op_end[i] + e.micros.len()
            &&& p.op_end[i + 1] <= p.micro.len()
            &&& forall|k: int|
                0 <= k < e.micros.len() ==> (#[trigger] p.micro[p.op_end[i] + k]).m == e.micros[k]
                    && p.micro[p.op_end[i] + k].op == i
            &&& image_after(t, profile, block, i + 1) == applied_all(
                match e.node {
                    Some(node) => image_after(t, profile, block, i).push(node),
                    None => image_after(t, profile, block, i),
                },
                e.micros,
            )
        }),
{
    let n = t.ops.len() as int;
    lemma_compiled_prefix(t, profile, block, i, n);
    lemma_compiled_prefix(t, profile, block, i + 1, n);
    let b = compiled_upto(t, profile, block, i)->Ok_0;
    let c = compiled_upto(t, profile, block, i + 1)->Ok_0;
    let e = effect(b.volatile, t.ops[i], block_of(block))->Ok_0;
    assert forall|k: int| 0 <= k < e.micros.len() implies (#[trigger] p.micro[p.op_end[i] + k]).m
        == e.micros[k] && p.micro[p.op_end[i] + k].op == i by {
        assert(c.micro[p.op_end[i] + k].m == e.micros[k]);
    }
}

/// A trace that does not compile is refused for its first op that cannot apply:
/// the ones before it can, and the message names the op and the reason.
pub proof fn law_first_bad_op_is_named(t: TraceView, profile: Profile, block: u64, n: int) -> (i:
    int)
    requires
        compiled_upto(t, profile, block, n) is Err,
        n <= t.ops.len() <= usize::MAX,
    ensures
        0 <= i < n,
        forall|k: int| 0 <= k <= i ==> #[trigger] compiled_upto(t, profile, block, k) is Ok,
        effect(image_after(t, profile, block, i), t.ops[i], block_of(block)) is Err,
        compiled_upto(t, profile, block, n)->Err_0 == (ErrorView::Model {
            op: i as usize,
            msg: described(t.ops[i]) + ": "@ + effect(
                image_after(t, profile, block, i),
                t.ops[i],
                block_of(block),
            )->Err_0,
        }),
    decreases n,
{
    if compiled_upto(t, profile, block, n - 1) is Err {
        law_first_bad_op_is_named(t, profile, block, n - 1)
    } else {
        assert forall|k: int| 0 <= k <= n - 1 implies #[trigger] compiled_upto(
            t,
            profile,
            block,
            k,
        ) is Ok by {
            lemma_ok_before(t, profile, block, k, n - 1);
        }
        n - 1
    }
}

proof fn lemma_ok_before(t: TraceView, profile: Profile, block: u64, k: int, n: int)
    requires
        k <= n,
        compiled_upto(t, profile, block, n) is Ok,
    ensures
        compiled_upto(t, profile, block, k) is Ok,
    decreases n,
{
    if 0 < n && k < n {
        lemma_ok_before(t, profile, block, k, n - 1);
    }
}

/// A write issues its data first, in pieces within blocks, and its new size last:
/// exactly when the write ends past the end of the file.
pub proof fn law_data_comes_before_size(
    v: FsView,
    path: Seq<char>,
    offset: u64,
    data: Seq<u8>,
    block: int,
)
    requires
        found(v, path) matches Some(f) && v[f as int] is File,
        offset + data.len() <= u64::MAX,
        block > 0,
    ensures
        effect(v, OpView::Write { path, offset, data }, block) is Ok,
        ({
            let micros = effect(v, OpView::Write { path, offset, data }, block)->Ok_0.micros;
            let f = found(v, path)->0;
            let end = offset + data.len();
            let grows = end > v[f as int]->len;
            let pieces = if grows {
                micros.len() - 1
            } else {
                micros.len() as int
            };
            &&& grows ==> micros.len() > 0 && micros.last() == (MicroView::SetLen {
                ino: f,
                len: end as u64,
                keep_tail: true,
            })
            &&& forall|k: int|
                0 <= k < pieces ==> (#[trigger] micros[k] matches MicroView::Write {
                    ino,
                    offset: at,
                    data: d,
                } && ino == f && d.len() > 0 && (at as int) % block + d.len() <= block)
        }),
{
    let f = found(v, path)->0;
    law_write_is_cut_at_blocks(f, offset as int, data, block);
    let parts = chunks(f, offset as int, data, block);
    let micros = effect(v, OpView::Write { path, offset, data }, block)->Ok_0.micros;
    assert forall|k: int| 0 <= k < parts.len() implies #[trigger] micros[k] == parts[k] by {}
}

/// Strictly increasing numbers that are exactly the persisted indices below `n`.
pub open spec fn lists_persisted(s: Seq<bool>, n: int, kept: Seq<int>) -> bool {
    &&& forall|a: int, b: int| 0 <= a < b < kept.len() ==> kept[a] < kept[b]
    &&& forall|a: int| 0 <= a < kept.len() ==> 0 <= #[trigger] kept[a] < n && s[kept[a]]
    &&& forall|j: int| 0 <= j < n && s[j] ==> kept.contains(j)
}

/// What is on disk after a crash is the image before the trace, changed by the
/// micro-ops that persisted, one after the other and in the order in which they
/// were issued; one that was lost has no effect at all.
pub proof fn law_persisted_changes_apply_in_order(
    p: ProgramView,
    s: Seq<bool>,
    n: int,
    kept: Seq<int>,
)
    requires
        0 <= n <= s.len(),
        lists_persisted(s, n, kept),
    ensures
        survived(p, s, n) == applied_all(
            p.base,
            Seq::new(kept.len(), |k: int| p.micro[kept[k]].m),
        ),
    decreases n,
{
    let micros = Seq::new(kept.len(), |k: int| p.micro[kept[k]].m);
    if n == 0 {
        assert(kept.len() == 0) by {
            if kept.len() > 0 {
                assert(0 <= kept[0] < n);
            }
        }
    } else if s[n - 1] {
        let at = choose|a: int| 0 <= a < kept.len() && kept[a] == n - 1;
        assert(kept.contains(n - 1));
        if at < kept.len() - 1 {
            assert(kept[at] < kept[kept.len() - 1]);
        }
        let before = kept.drop_last();
        assert forall|j: int| 0 <= j < n - 1 && s[j] implies before.contains(j) by {
            let a = choose|a: int| 0 <= a < kept.len() && kept[a] == j;
            assert(kept.contains(j));
            assert(before[a] == j);
        }
        assert forall|a: int| 0 <= a < before.len() implies 0 <= #[trigger] before[a] < n - 1
            && s[before[a]] by {
            assert(before[a] == kept[a]);
            assert(kept[a] < kept[kept.len() - 1]);
        }
        law_persisted_changes_apply_in_order(p, s, n - 1, before);
        assert(micros.drop_last() =~= Seq::new(before.len(), |k: int| p.micro[before[k]].m));
    } else {
        assert forall|a: int| 0 <= a < kept.len() implies 0 <= #[trigger] kept[a] < n - 1
            && s[kept[a]] by {}
        law_persisted_changes_apply_in_order(p, s, n - 1, kept);
    }
}

/// The block size is taken as it is given; only zero counts as one.
pub proof fn law_block_sizes_are_positive(block: u64)
    ensures
        block_of(block) > 0,
        block > 0 ==> block_of(block) == block,
        block == 0 ==> block_of(block) == 1,
{
}

} // verus!
