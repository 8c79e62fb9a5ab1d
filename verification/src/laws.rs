//! The engine's laws, stated over the model transitions that the executable
//! operations realize ([`crate::runtime::Runtime::write`] realizes
//! [`store_model`], the run protocol realizes [`begin_run_model`] and
//! [`end_run_model`], and a recomputation lands through
//! [`apply_result_model`]).

use vstd::prelude::*;

use crate::datum::Datum;
use crate::memo::created_ok;
use crate::runtime::{
    apply_result_model, begin_run_model, coherent_at, end_run_model, inv_model, lemma_remove_id,
    sig_ok, store_model, Model, NotifyRule, StateHandle,
};

verus! {

/// A sequence of successful writes, applied in order.
pub open spec fn apply_writes<V>(m: Model<V>, ws: Seq<(usize, V)>) -> Model<V>
    decreases ws.len(),
{
    if ws.len() == 0 {
        m
    } else {
        apply_writes(store_model(m, ws[0].0 as int, ws[0].1), ws.drop_first())
    }
}

/// Writes never create or drop cells.
pub proof fn lemma_apply_writes_len<V>(m: Model<V>, ws: Seq<(usize, V)>)
    requires
        forall|j: int| 0 <= j < ws.len() ==> ((#[trigger] ws[j]).0 as int) < m.sigs.len(),
    ensures
        apply_writes(m, ws).sigs.len() == m.sigs.len(),
    decreases ws.len(),
{
    if ws.len() > 0 {
        let m1 = store_model(m, ws[0].0 as int, ws[0].1);
        assert(m1.sigs.len() == m.sigs.len());
        assert forall|j: int|
            0 <= j < ws.drop_first().len() implies ((#[trigger] ws.drop_first()[j]).0 as int)
            < m1.sigs.len() by {
            assert(ws.drop_first()[j] == ws[j + 1]);
        }
        lemma_apply_writes_len(m1, ws.drop_first());
    }
}

/// A cell that none of the writes touches keeps its value.
pub proof fn lemma_untouched_cell_keeps_value<V>(m: Model<V>, ws: Seq<(usize, V)>, s: usize)
    requires
        (s as int) < m.sigs.len(),
        forall|j: int| 0 <= j < ws.len() ==> (#[trigger] ws[j]).0 != s,
        forall|j: int| 0 <= j < ws.len() ==> ((#[trigger] ws[j]).0 as int) < m.sigs.len(),
    ensures
        apply_writes(m, ws).sigs[s as int].value == m.sigs[s as int].value,
    decreases ws.len(),
{
    if ws.len() > 0 {
        assert(ws[0].0 != s);
        let m1 = store_model(m, ws[0].0 as int, ws[0].1);
        assert(m1.sigs[s as int].value == m.sigs[s as int].value);
        assert forall|j: int|
            0 <= j < ws.drop_first().len() implies (#[trigger] ws.drop_first()[j]).0 != s && ((
            ws.drop_first()[j]).0 as int) < m1.sigs.len() by {
            assert(ws.drop_first()[j] == ws[j + 1]);
        }
        lemma_untouched_cell_keeps_value(m1, ws.drop_first(), s);
    }
}

/// After any sequence of writes, a cell holds the value of the last write
/// that targeted it.  (`Runtime::write` and `Signal::set` realize exactly
/// `store_model` on success, and reading through `get` or `get_untracked`
/// returns this stored value.)
pub proof fn lemma_last_write_wins<V>(m: Model<V>, ws: Seq<(usize, V)>, s: usize, k: int)
    requires
        (s as int) < m.sigs.len(),
        0 <= k < ws.len(),
        ws[k].0 == s,
        forall|j: int| k < j < ws.len() ==> (#[trigger] ws[j]).0 != s,
        forall|j: int| 0 <= j < ws.len() ==> ((#[trigger] ws[j]).0 as int) < m.sigs.len(),
    ensures
        apply_writes(m, ws).sigs[s as int].value == ws[k].1,
    decreases ws.len(),
{
    let m1 = store_model(m, ws[0].0 as int, ws[0].1);
    assert(m1.sigs.len() == m.sigs.len());
    assert forall|j: int|
        0 <= j < ws.drop_first().len() implies ((#[trigger] ws.drop_first()[j]).0 as int)
        < m1.sigs.len() by {
        assert(ws.drop_first()[j] == ws[j + 1]);
    }
    if k == 0 {
        if ws.len() == 1 {
            assert(apply_writes(m1, ws.drop_first()) == m1);
        } else {
            assert(m1.sigs[s as int].value == ws[0].1);
            assert forall|j: int|
                0 <= j < ws.drop_first().len() implies (#[trigger] ws.drop_first()[j]).0 != s by {
                assert(ws.drop_first()[j] == ws[j + 1]);
            }
            lemma_untouched_cell_keeps_value(m1, ws.drop_first(), s);
        }
    } else {
        assert(ws.drop_first()[k - 1] == ws[k]);
        assert forall|j: int|
            k - 1 < j < ws.drop_first().len() implies (#[trigger] ws.drop_first()[j]).0 != s by {
            assert(ws.drop_first()[j] == ws[j + 1]);
        }
        lemma_last_write_wins(m1, ws.drop_first(), s, k - 1);
    }
}

/// Starting a run removes the computation from every subscriber list: the
/// dependency record is rebuilt from nothing on each run.
pub proof fn lemma_begin_run_unsubscribes<V>(m: Model<V>, c: usize, s: usize)
    requires
        inv_model(m),
        m.stack.len() == 0,
        (c as int) < m.comps.len(),
        (s as int) < m.sigs.len(),
    ensures
        !begin_run_model(m, c).sigs[s as int].subs.contains(c),
{
    assert(sig_ok(m, s as int));
    lemma_remove_id(m.sigs[s as int].subs, c, m.comps.len() as int);
}

/// When a run ends, the computation is subscribed to a cell exactly when
/// this run read it.  Together with [`lemma_begin_run_unsubscribes`] this is
/// the rebuild-every-run discipline: a computation that reads a cell only
/// under a condition stops being notified by that cell one re-run after the
/// condition turns false.
pub proof fn lemma_subscriptions_track_last_run<V>(m: Model<V>, c: usize, s: usize)
    requires
        inv_model(m),
        m.stack == seq![c],
        (s as int) < m.sigs.len(),
    ensures
        end_run_model(m, c).sigs[s as int].subs.contains(c) <==> m.comps[c as int].deps.contains(
            s,
        ),
{
    assert(m.stack[0] == c);
    assert((c as int) < m.comps.len());
    assert(m.stack.contains(c));
    assert(coherent_at(m, s as int, c as int));
    assert(!m.sigs[s as int].subs.contains(c));
    let m2 = end_run_model(m, c);
    if m.comps[c as int].deps.contains(s) {
        assert(m2.sigs[s as int].subs == m.sigs[s as int].subs.push(c));
        assert(m2.sigs[s as int].subs[m.sigs[s as int].subs.len() as int] == c);
        assert(m2.sigs[s as int].subs.contains(c));
    } else {
        assert(m2.sigs[s as int].subs == m.sigs[s as int].subs);
    }
}

/// A selector whose recomputation yields a value equal to the stored one
/// stores the value but notifies nobody: no pending frame appears, no
/// subscriber list changes, even though the derivation itself did rerun.
pub proof fn lemma_selector_suppresses_equal<V: Datum>(m: Model<V>, c: usize, v: V)
    requires
        (c as int) < m.comps.len(),
        m.comps[c as int].rule == NotifyRule::WhenChanged,
        m.comps[c as int].out matches Some(o) && (o as int) < m.sigs.len() && m.sigs[
            o as int
        ].value.veq(&v),
    ensures
        apply_result_model(m, c, v).frames == m.frames,
        apply_result_model(m, c, v).sigs[m.comps[c as int].out.unwrap() as int].value == v,
        forall|s: int|
            0 <= s < m.sigs.len() ==> (#[trigger] apply_result_model(m, c, v).sigs[s]).subs
                == m.sigs[s].subs,
{
}

/// The suppression law reaches every selector a caller creates:
/// [`crate::memo::create_selector`]'s contract records the when-changed rule
/// and the output cell of the fresh computation, no operation of the engine
/// ever changes those two fields of an existing record, and they are exactly
/// what the law needs of a later recomputation in any later state `m`.
pub proof fn lemma_created_selector_suppresses_equal<V: Datum>(
    pre: Model<V>,
    post: Model<V>,
    h: StateHandle,
    slot: usize,
    m: Model<V>,
    v: V,
)
    requires
        created_ok(pre, post, h, NotifyRule::WhenChanged, slot),
        pre.comps.len() <= usize::MAX as int,
        (pre.comps.len() as int) < m.comps.len(),
        m.comps[pre.comps.len() as int].rule == post.comps[pre.comps.len() as int].rule,
        m.comps[pre.comps.len() as int].out == post.comps[pre.comps.len() as int].out,
        (h.id as int) < m.sigs.len(),
        m.sigs[h.id as int].value.veq(&v),
    ensures
        apply_result_model(m, pre.comps.len() as usize, v).frames == m.frames,
        apply_result_model(m, pre.comps.len() as usize, v).sigs[h.id as int].value == v,
{
    assert((pre.comps.len() as usize) as int == pre.comps.len() as int);
    lemma_selector_suppresses_equal(m, pre.comps.len() as usize, v);
}

/// A memo's recomputation, by contrast, always stores and always queues a
/// notification of its subscribers, if it has any.
pub proof fn lemma_memo_always_notifies<V: Datum>(m: Model<V>, c: usize, v: V)
    requires
        (c as int) < m.comps.len(),
        m.comps[c as int].rule == NotifyRule::Always,
        m.comps[c as int].out matches Some(o) && (o as int) < m.sigs.len(),
    ensures
        ({
            let o = m.comps[c as int].out.unwrap();
            &&& apply_result_model(m, c, v).sigs[o as int].value == v
            &&& m.sigs[o as int].subs.len() > 0 ==> apply_result_model(m, c, v).frames
                == m.frames.push(
                crate::runtime::FrameModel { comps: m.sigs[o as int].subs, next: 0 },
            )
        }),
{
}

} // verus!
