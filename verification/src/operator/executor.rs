//! Runs trees of operator expressions against the data registry.
//!
//! Preparing a tree registers, children first, one more pending reader of
//! each expression's input and an empty, not yet ready, entry for each
//! output that is not registered. Executing a tree runs, children first,
//! each expression: its input must be ready, one pending reader is retired,
//! and unless the output is already ready the operator runs and marks it
//! ready.
use vstd::prelude::*;

use crate::context::{in_use_after_increase, Context, ExprType, Expression, ObliData, NOT_IN_USE};
use crate::manager::{registered, DataManager, DataView};
use crate::operator::hasher::hash_exec;
use crate::operator::sorter::sort_exec;

verus! {

/// What preparation answers when an input is not registered.
pub const MISSING_INPUT: &'static str =
    "[TA::executor.rs::prepare_data()] can't find input data, which means need data from transport interface";

/// What execution answers when an input is not ready.
pub const INPUT_NOT_PREPARED: &'static str = "[hasher.rs::hash_exec()] input isn't prepared !!!";

/// What execution answers for an operator kind it does not run.
pub const UNSUPPORTED: &'static str = "[executor.rs::execute()] expr typ of {:#?} is unsupported !!!";

/// The registry seen as a map from ids to data.
pub type Registry = Map<Seq<char>, DataView>;

/// The outcome of a step: the registry it leaves, and its answer.
pub type Outcome = (Registry, Result<(), &'static str>);

// ----------------------------------------------------------------------
// Preparation
// ----------------------------------------------------------------------
/// Prepares one expression whose children are prepared: one more pending
/// reader of the input, and an entry for the output if it has none.
pub open spec fn prepare_node(m: Registry, e: Expression) -> (Registry, bool) {
    if !m.contains_key(e.input.id@) {
        (m, false)
    } else {
        let d = m[e.input.id@];
        let m1 = m.insert(
            e.input.id@,
            DataView {
                description: ObliData {
                    in_use: in_use_after_increase(d.description.in_use),
                    ..d.description
                },
                buffer: d.buffer,
            },
        );
        if m1.contains_key(e.output.id@) {
            (m1, true)
        } else {
            (registered(m1, e.output.id@, e.output, Seq::empty(), false), true)
        }
    }
}

/// Prepares a tree: its children in order, then the expression itself;
/// stops at the first input that is not registered.
pub open spec fn prepare_tree(m: Registry, e: Expression) -> (Registry, bool)
    decreases e,
{
    let (m1, ok) = prepare_list(m, e.children@);
    if !ok {
        (m1, false)
    } else {
        prepare_node(m1, e)
    }
}

/// Prepares trees in order; stops at the first failure.
pub open spec fn prepare_list(m: Registry, es: Seq<Expression>) -> (Registry, bool)
    decreases es,
{
    if es.len() == 0 {
        (m, true)
    } else {
        let (m1, ok) = prepare_list(m, es.drop_last());
        if !ok {
            (m1, false)
        } else {
            prepare_tree(m1, es.last())
        }
    }
}

// ----------------------------------------------------------------------
// Execution
// ----------------------------------------------------------------------
/// Executes one expression whose children are executed.
pub open spec fn exec_node(m: Registry, e: Expression) -> Outcome {
    let din = m[e.input.id@].description;
    if !din.prepared {
        (m, Err(INPUT_NOT_PREPARED))
    } else if din.in_use <= 0 {
        (m, Err(NOT_IN_USE))
    } else {
        let m1 = m.insert(
            e.input.id@,
            DataView {
                description: ObliData { in_use: (din.in_use - 1) as i32, ..din },
                buffer: m[e.input.id@].buffer,
            },
        );
        let dout = m1[e.output.id@];
        if dout.description.prepared {
            (m1, Ok(()))
        } else {
            match e.typ {
                ExprType::MOD => (m1, Err(UNSUPPORTED)),
                _ => (
                    m1.insert(
                        e.output.id@,
                        DataView {
                            description: ObliData { prepared: true, ..dout.description },
                            buffer: dout.buffer,
                        },
                    ),
                    Ok(()),
                ),
            }
        }
    }
}

/// Executes a tree: its children in order, then the expression itself;
/// stops at the first error.
pub open spec fn exec_tree(m: Registry, e: Expression) -> Outcome
    decreases e,
{
    let (m1, r) = exec_list(m, e.children@);
    if r is Err {
        (m1, r)
    } else {
        exec_node(m1, e)
    }
}

/// Executes trees in order; stops at the first error.
pub open spec fn exec_list(m: Registry, es: Seq<Expression>) -> Outcome
    decreases es,
{
    if es.len() == 0 {
        (m, Ok(()))
    } else {
        let (m1, r) = exec_list(m, es.drop_last());
        if r is Err {
            (m1, r)
        } else {
            exec_tree(m1, es.last())
        }
    }
}

/// Every id that a tree reads or writes is in `dom`.
pub open spec fn tree_ids_in(dom: Set<Seq<char>>, e: Expression) -> bool
    decreases e,
{
    &&& dom.contains(e.input.id@)
    &&& dom.contains(e.output.id@)
    &&& list_ids_in(dom, e.children@)
}

/// Every id that the trees read or write is in `dom`.
pub open spec fn list_ids_in(dom: Set<Seq<char>>, es: Seq<Expression>) -> bool
    decreases es,
{
    es.len() > 0 ==> list_ids_in(dom, es.drop_last()) && tree_ids_in(dom, es.last())
}

/// Running a batch: each tree is prepared, then executed, in order; the
/// batch stops at the first error.
pub open spec fn ctx_run(m: Registry, es: Seq<Expression>) -> Outcome
    decreases es.len(),
{
    if es.len() == 0 {
        (m, Ok(()))
    } else {
        let (m1, r) = ctx_run(m, es.drop_last());
        if r is Err {
            (m1, r)
        } else {
            let (m2, ok) = prepare_tree(m1, es.last());
            if !ok {
                (m2, Err(MISSING_INPUT))
            } else {
                exec_tree(m2, es.last())
            }
        }
    }
}

// ----------------------------------------------------------------------
// Facts about the specifications
// ----------------------------------------------------------------------
proof fn lemma_list_ids_in_index(dom: Set<Seq<char>>, es: Seq<Expression>, i: int)
    requires
        list_ids_in(dom, es),
        0 <= i < es.len(),
    ensures
        tree_ids_in(dom, es[i]),
    decreases es.len(),
{
    if i < es.len() - 1 {
        lemma_list_ids_in_index(dom, es.drop_last(), i);
    }
}

proof fn lemma_ids_in_grow(d1: Set<Seq<char>>, d2: Set<Seq<char>>, e: Expression)
    requires
        tree_ids_in(d1, e),
        d1.subset_of(d2),
    ensures
        tree_ids_in(d2, e),
    decreases e, 0int,
{
    lemma_list_ids_in_grow(d1, d2, e.children@);
}

proof fn lemma_list_ids_in_grow(d1: Set<Seq<char>>, d2: Set<Seq<char>>, es: Seq<Expression>)
    requires
        list_ids_in(d1, es),
        d1.subset_of(d2),
    ensures
        list_ids_in(d2, es),
    decreases es, 0int,
{
    if es.len() > 0 {
        lemma_list_ids_in_grow(d1, d2, es.drop_last());
        lemma_ids_in_grow(d1, d2, es.last());
    }
}

/// Preparation only adds ids; when it succeeds, every id of the tree is
/// registered afterwards.
pub proof fn lemma_prepare_tree_ids(m: Registry, e: Expression)
    ensures
        m.dom().subset_of(prepare_tree(m, e).0.dom()),
        prepare_tree(m, e).1 ==> tree_ids_in(prepare_tree(m, e).0.dom(), e),
    decreases e, 0int,
{
    let (m1, ok) = prepare_list(m, e.children@);
    lemma_prepare_list_ids(m, e.children@);
    if ok {
        let (m2, ok2) = prepare_node(m1, e);
        if ok2 {
            lemma_list_ids_in_grow(m1.dom(), m2.dom(), e.children@);
        }
    }
}

/// Preparation of several trees only adds ids; when it succeeds, every id
/// of the trees is registered afterwards.
pub proof fn lemma_prepare_list_ids(m: Registry, es: Seq<Expression>)
    ensures
        m.dom().subset_of(prepare_list(m, es).0.dom()),
        prepare_list(m, es).1 ==> list_ids_in(prepare_list(m, es).0.dom(), es),
    decreases es, 0int,
{
    if es.len() > 0 {
        let (m1, ok) = prepare_list(m, es.drop_last());
        lemma_prepare_list_ids(m, es.drop_last());
        if ok {
            lemma_prepare_tree_ids(m1, es.last());
            let (m2, ok2) = prepare_tree(m1, es.last());
            if ok2 {
                lemma_list_ids_in_grow(m1.dom(), m2.dom(), es.drop_last());
            }
        }
    }
}

/// Execution of a tree whose ids are registered keeps the set of ids.
pub proof fn lemma_exec_tree_dom(m: Registry, e: Expression)
    requires
        tree_ids_in(m.dom(), e),
    ensures
        exec_tree(m, e).0.dom() == m.dom(),
    decreases e, 0int,
{
    lemma_exec_list_dom(m, e.children@);
    let (m1, r) = exec_list(m, e.children@);
    if r is Ok {
        assert(exec_node(m1, e).0.dom() =~= m1.dom());
    }
}

/// Execution of trees whose ids are registered keeps the set of ids.
pub proof fn lemma_exec_list_dom(m: Registry, es: Seq<Expression>)
    requires
        list_ids_in(m.dom(), es),
    ensures
        exec_list(m, es).0.dom() == m.dom(),
    decreases es, 0int,
{
    if es.len() > 0 {
        lemma_exec_list_dom(m, es.drop_last());
        let (m1, r) = exec_list(m, es.drop_last());
        if r is Ok {
            lemma_exec_tree_dom(m1, es.last());
        }
    }
}

/// Once preparing a prefix of the trees fails, preparing a longer prefix
/// fails the same way.
proof fn lemma_prepare_list_stops(m: Registry, es: Seq<Expression>, j: int, k: int)
    requires
        0 <= j <= k <= es.len(),
        !prepare_list(m, es.take(j)).1,
    ensures
        prepare_list(m, es.take(k)) == prepare_list(m, es.take(j)),
    decreases k,
{
    if k > j {
        lemma_prepare_list_stops(m, es, j, k - 1);
        assert(es.take(k).drop_last() =~= es.take(k - 1));
    }
}

/// Once executing a prefix of the trees fails, executing a longer prefix
/// fails the same way.
proof fn lemma_exec_list_stops(m: Registry, es: Seq<Expression>, j: int, k: int)
    requires
        0 <= j <= k <= es.len(),
        exec_list(m, es.take(j)).1 is Err,
    ensures
        exec_list(m, es.take(k)) == exec_list(m, es.take(j)),
    decreases k,
{
    if k > j {
        lemma_exec_list_stops(m, es, j, k - 1);
        assert(es.take(k).drop_last() =~= es.take(k - 1));
    }
}

/// Once a prefix of a batch fails, a longer prefix fails the same way.
proof fn lemma_ctx_run_stops(m: Registry, es: Seq<Expression>, j: int, k: int)
    requires
        0 <= j <= k <= es.len(),
        ctx_run(m, es.take(j)).1 is Err,
    ensures
        ctx_run(m, es.take(k)) == ctx_run(m, es.take(j)),
    decreases k,
{
    if k > j {
        lemma_ctx_run_stops(m, es, j, k - 1);
        assert(es.take(k).drop_last() =~= es.take(k - 1));
    }
}

// ----------------------------------------------------------------------
// Laws
// ----------------------------------------------------------------------
/// How many expressions of the tree read the data `k`.
pub open spec fn count_tree(e: Expression, k: Seq<char>) -> int
    decreases e,
{
    (if e.input.id@ == k {
        1int
    } else {
        0int
    }) + count_list(e.children@, k)
}

/// How many expressions of the trees read the data `k`.
pub open spec fn count_list(es: Seq<Expression>, k: Seq<char>) -> int
    decreases es,
{
    if es.len() == 0 {
        0
    } else {
        count_list(es.drop_last(), k) + count_tree(es.last(), k)
    }
}

/// Every output of the tree is ready in `m`.
pub open spec fn tree_outputs_ready(m: Registry, e: Expression) -> bool
    decreases e,
{
    &&& m.contains_key(e.output.id@)
    &&& m[e.output.id@].description.prepared
    &&& list_outputs_ready(m, e.children@)
}

/// Every output of the trees is ready in `m`.
pub open spec fn list_outputs_ready(m: Registry, es: Seq<Expression>) -> bool
    decreases es,
{
    es.len() > 0 ==> list_outputs_ready(m, es.drop_last()) && tree_outputs_ready(m, es.last())
}

/// `m2` keeps every id of `m1`, with the same bytes and the same
/// description but for the count of readers, and keeps every ready mark.
pub open spec fn only_counts_and_marks_change(m1: Registry, m2: Registry) -> bool {
    &&& m2.dom() == m1.dom()
    &&& forall|k: Seq<char>|
        #![trigger m2[k]]
        m1.contains_key(k) ==> {
            &&& m2[k].buffer == m1[k].buffer
            &&& m2[k].description.name == m1[k].description.name
            &&& m2[k].description.id == m1[k].description.id
            &&& m2[k].description.addr == m1[k].description.addr
            &&& m2[k].description.length == m1[k].description.length
            &&& (m1[k].description.prepared ==> m2[k].description.prepared)
        }
}

proof fn lemma_change_trans(m1: Registry, m2: Registry, m3: Registry)
    requires
        only_counts_and_marks_change(m1, m2),
        only_counts_and_marks_change(m2, m3),
    ensures
        only_counts_and_marks_change(m1, m3),
{
    assert forall|k: Seq<char>| m1.contains_key(k) implies {
        &&& m3[k].buffer == m1[k].buffer
        &&& m3[k].description.name == m1[k].description.name
        &&& m3[k].description.id == m1[k].description.id
        &&& m3[k].description.addr == m1[k].description.addr
        &&& m3[k].description.length == m1[k].description.length
        &&& (m1[k].description.prepared ==> m3[k].description.prepared)
    } by {
        assert(m2.contains_key(k));
        assert(m2[k] == m2[k]);
        assert(m3[k] == m3[k]);
    }
}

proof fn lemma_outputs_ready_keep(m1: Registry, m2: Registry, e: Expression)
    requires
        tree_outputs_ready(m1, e),
        only_counts_and_marks_change(m1, m2),
    ensures
        tree_outputs_ready(m2, e),
    decreases e, 0int,
{
    assert(m2[e.output.id@] == m2[e.output.id@]);
    lemma_list_outputs_ready_keep(m1, m2, e.children@);
}

proof fn lemma_list_outputs_ready_keep(m1: Registry, m2: Registry, es: Seq<Expression>)
    requires
        list_outputs_ready(m1, es),
        only_counts_and_marks_change(m1, m2),
    ensures
        list_outputs_ready(m2, es),
    decreases es, 0int,
{
    if es.len() > 0 {
        lemma_list_outputs_ready_keep(m1, m2, es.drop_last());
        lemma_outputs_ready_keep(m1, m2, es.last());
    }
}

/// Execution changes no bytes and no description but for the counts of
/// readers and the ready marks, and never takes a ready mark away; when it
/// succeeds, every output of the tree is ready.
pub proof fn lemma_exec_tree_effect(m: Registry, e: Expression)
    requires
        tree_ids_in(m.dom(), e),
    ensures
        only_counts_and_marks_change(m, exec_tree(m, e).0),
        exec_tree(m, e).1 is Ok ==> tree_outputs_ready(exec_tree(m, e).0, e),
    decreases e, 0int,
{
    lemma_exec_list_effect(m, e.children@);
    let (m1, r) = exec_list(m, e.children@);
    if r is Ok {
        let (m2, r2) = exec_node(m1, e);
        assert(only_counts_and_marks_change(m1, m2)) by {
            assert forall|k: Seq<char>| m1.contains_key(k) implies {
                &&& m2[k].buffer == m1[k].buffer
                &&& m2[k].description.name == m1[k].description.name
                &&& m2[k].description.id == m1[k].description.id
                &&& m2[k].description.addr == m1[k].description.addr
                &&& m2[k].description.length == m1[k].description.length
                &&& (m1[k].description.prepared ==> m2[k].description.prepared)
            } by {}
            assert(m2.dom() =~= m1.dom());
        }
        lemma_change_trans(m, m1, m2);
        if r2 is Ok {
            lemma_list_outputs_ready_keep(m1, m2, e.children@);
        }
    }
}

/// Execution of several trees changes no bytes and no description but for
/// the counts of readers and the ready marks, and never takes a ready mark
/// away; when it succeeds, every output of the trees is ready.
pub proof fn lemma_exec_list_effect(m: Registry, es: Seq<Expression>)
    requires
        list_ids_in(m.dom(), es),
    ensures
        only_counts_and_marks_change(m, exec_list(m, es).0),
        exec_list(m, es).1 is Ok ==> list_outputs_ready(exec_list(m, es).0, es),
    decreases es, 0int,
{
    if es.len() == 0 {
        assert(only_counts_and_marks_change(m, m));
    } else {
        lemma_exec_list_effect(m, es.drop_last());
        let (m1, r) = exec_list(m, es.drop_last());
        if r is Ok {
            lemma_exec_tree_effect(m1, es.last());
            let (m2, r2) = exec_tree(m1, es.last());
            lemma_change_trans(m, m1, m2);
            if r2 is Ok {
                lemma_list_outputs_ready_keep(m1, m2, es.drop_last());
            }
        }
    }
}

/// A successful execution retires, from each registered data, one reader
/// for each expression of the tree that reads it.
pub proof fn lemma_exec_tree_counts(m: Registry, e: Expression)
    requires
        tree_ids_in(m.dom(), e),
        exec_tree(m, e).1 is Ok,
    ensures
        forall|k: Seq<char>|
            #![trigger exec_tree(m, e).0[k]]
            m.contains_key(k) ==> exec_tree(m, e).0[k].description.in_use == m[k].description.in_use
                - count_tree(e, k),
    decreases e, 0int,
{
    lemma_exec_list_counts(m, e.children@);
    lemma_exec_list_dom(m, e.children@);
}

/// A successful execution of several trees retires, from each registered
/// data, one reader for each expression that reads it.
pub proof fn lemma_exec_list_counts(m: Registry, es: Seq<Expression>)
    requires
        list_ids_in(m.dom(), es),
        exec_list(m, es).1 is Ok,
    ensures
        forall|k: Seq<char>|
            #![trigger exec_list(m, es).0[k]]
            m.contains_key(k) ==> exec_list(m, es).0[k].description.in_use == m[k].description.in_use
                - count_list(es, k),
    decreases es, 0int,
{
    if es.len() > 0 {
        lemma_exec_list_counts(m, es.drop_last());
        lemma_exec_list_dom(m, es.drop_last());
        let (m1, r) = exec_list(m, es.drop_last());
        lemma_list_ids_in_grow(m.dom(), m1.dom(), es);
        lemma_exec_tree_counts(m1, es.last());
        assert forall|k: Seq<char>| m.contains_key(k) implies exec_list(m, es).0[k].description.in_use
            == m[k].description.in_use - count_list(es, k) by {
            assert(m1[k] == m1[k]);
        }
    }
}

/// A successful preparation registers, on each data of `d` (registered
/// before), one more reader for each expression of the tree that reads it,
/// as long as the count does not pass the largest `i32`.
pub proof fn lemma_prepare_tree_counts(m: Registry, e: Expression, d: Set<Seq<char>>)
    requires
        prepare_tree(m, e).1,
        d.subset_of(m.dom()),
        forall|k: Seq<char>|
            #![trigger m[k]]
            d.contains(k) ==> m[k].description.in_use + count_tree(e, k) <= i32::MAX,
    ensures
        forall|k: Seq<char>|
            #![trigger prepare_tree(m, e).0[k]]
            d.contains(k) ==> prepare_tree(m, e).0[k].description.in_use == m[k].description.in_use
                + count_tree(e, k),
    decreases e, 0int,
{
    assert forall|k: Seq<char>| d.contains(k) implies m[k].description.in_use + count_list(
        e.children@,
        k,
    ) <= i32::MAX by {
        lemma_counts_nonneg(e, k);
        assert(m[k] == m[k]);
    }
    lemma_prepare_list_counts(m, e.children@, d);
    let (m1, ok) = prepare_list(m, e.children@);
    lemma_prepare_list_ids(m, e.children@);
    assert forall|k: Seq<char>| d.contains(k) implies prepare_tree(m, e).0[k].description.in_use
        == m[k].description.in_use + count_tree(e, k) by {
        assert(m1[k] == m1[k]);
        assert(m[k] == m[k]);
        lemma_counts_nonneg(e, k);
    }
}

/// A successful preparation of several trees registers, on each data of
/// `d` (registered before), one more reader for each expression that reads
/// it, as long as the count does not pass the largest `i32`.
pub proof fn lemma_prepare_list_counts(m: Registry, es: Seq<Expression>, d: Set<Seq<char>>)
    requires
        prepare_list(m, es).1,
        d.subset_of(m.dom()),
        forall|k: Seq<char>|
            #![trigger m[k]]
            d.contains(k) ==> m[k].description.in_use + count_list(es, k) <= i32::MAX,
    ensures
        forall|k: Seq<char>|
            #![trigger prepare_list(m, es).0[k]]
            d.contains(k) ==> prepare_list(m, es).0[k].description.in_use == m[k].description.in_use
                + count_list(es, k),
    decreases es, 0int,
{
    if es.len() > 0 {
        let (m1, ok) = prepare_list(m, es.drop_last());
        assert forall|k: Seq<char>| d.contains(k) implies m[k].description.in_use + count_list(
            es.drop_last(),
            k,
        ) <= i32::MAX by {
            lemma_counts_nonneg(es.last(), k);
            assert(m[k] == m[k]);
        }
        lemma_prepare_list_counts(m, es.drop_last(), d);
        lemma_prepare_list_ids(m, es.drop_last());
        assert forall|k: Seq<char>| d.contains(k) implies m1[k].description.in_use + count_tree(
            es.last(),
            k,
        ) <= i32::MAX by {
            assert(m[k] == m[k]);
        }
        lemma_prepare_tree_counts(m1, es.last(), d);
        assert forall|k: Seq<char>| d.contains(k) implies prepare_list(m, es).0[k].description.in_use
            == m[k].description.in_use + count_list(es, k) by {
            assert(m1[k] == m1[k]);
        }
    }
}

/// Preparing a tree and then executing it, both successfully, leaves every
/// data registered before with the count of readers it had, as long as the
/// preparation does not take a count past the largest `i32`.
pub proof fn lemma_prepare_then_execute_keeps_counts(m: Registry, e: Expression)
    requires
        prepare_tree(m, e).1,
        exec_tree(prepare_tree(m, e).0, e).1 is Ok,
        forall|k: Seq<char>|
            #![trigger m[k]]
            m.contains_key(k) ==> m[k].description.in_use + count_tree(e, k) <= i32::MAX,
    ensures
        forall|k: Seq<char>|
            #![trigger exec_tree(prepare_tree(m, e).0, e).0[k]]
            m.contains_key(k) ==> exec_tree(prepare_tree(m, e).0, e).0[k].description.in_use
                == m[k].description.in_use,
{
    let m1 = prepare_tree(m, e).0;
    lemma_prepare_tree_counts(m, e, m.dom());
    lemma_prepare_tree_ids(m, e);
    lemma_exec_tree_counts(m1, e);
    assert forall|k: Seq<char>| m.contains_key(k) implies exec_tree(m1, e).0[k].description.in_use
        == m[k].description.in_use by {
        assert(m1[k] == m1[k]);
        assert(m[k] == m[k]);
    }
}

/// The number of readers of a data in a tree is never negative.
pub proof fn lemma_counts_nonneg(e: Expression, k: Seq<char>)
    ensures
        count_tree(e, k) >= 0,
        count_list(e.children@, k) >= 0,
    decreases e, 0int,
{
    lemma_list_counts_nonneg(e.children@, k);
}

proof fn lemma_list_counts_nonneg(es: Seq<Expression>, k: Seq<char>)
    ensures
        count_list(es, k) >= 0,
    decreases es, 0int,
{
    if es.len() > 0 {
        lemma_list_counts_nonneg(es.drop_last(), k);
        lemma_counts_nonneg(es.last(), k);
    }
}

/// Every input that the tree reads is in `dom`.
pub open spec fn tree_inputs_in(dom: Set<Seq<char>>, e: Expression) -> bool
    decreases e,
{
    &&& dom.contains(e.input.id@)
    &&& list_inputs_in(dom, e.children@)
}

/// Every input that the trees read is in `dom`.
pub open spec fn list_inputs_in(dom: Set<Seq<char>>, es: Seq<Expression>) -> bool
    decreases es,
{
    es.len() > 0 ==> list_inputs_in(dom, es.drop_last()) && tree_inputs_in(dom, es.last())
}

proof fn lemma_inputs_in_grow(d1: Set<Seq<char>>, d2: Set<Seq<char>>, e: Expression)
    requires
        tree_inputs_in(d1, e),
        d1.subset_of(d2),
    ensures
        tree_inputs_in(d2, e),
    decreases e, 0int,
{
    lemma_list_inputs_in_grow(d1, d2, e.children@);
}

proof fn lemma_list_inputs_in_grow(d1: Set<Seq<char>>, d2: Set<Seq<char>>, es: Seq<Expression>)
    requires
        list_inputs_in(d1, es),
        d1.subset_of(d2),
    ensures
        list_inputs_in(d2, es),
    decreases es, 0int,
{
    if es.len() > 0 {
        lemma_list_inputs_in_grow(d1, d2, es.drop_last());
        lemma_inputs_in_grow(d1, d2, es.last());
    }
}

/// `d2` has the bytes and the description of `d1` but, perhaps, for the
/// count of readers.
pub open spec fn same_but_count(d1: DataView, d2: DataView) -> bool {
    &&& d2.buffer == d1.buffer
    &&& d2.description.name == d1.description.name
    &&& d2.description.id == d1.description.id
    &&& d2.description.addr == d1.description.addr
    &&& d2.description.length == d1.description.length
    &&& d2.description.prepared == d1.description.prepared
}

/// Preparing a tree whose inputs are all registered succeeds, whether or
/// not its outputs are registered already; a registered entry that no
/// expression of the tree reads is left exactly as it was, and every other
/// registered entry keeps its bytes and its description but for the count
/// of readers.
pub proof fn lemma_prepare_tree_succeeds(m: Registry, e: Expression)
    ensures
        tree_inputs_in(m.dom(), e) ==> prepare_tree(m, e).1,
        forall|k: Seq<char>|
            #![trigger prepare_tree(m, e).0[k]]
            m.contains_key(k) && count_tree(e, k) == 0 ==> prepare_tree(m, e).0[k] == m[k],
        forall|k: Seq<char>|
            #![trigger prepare_tree(m, e).0[k]]
            m.contains_key(k) ==> prepare_tree(m, e).0.contains_key(k) && same_but_count(
                m[k],
                prepare_tree(m, e).0[k],
            ),
    decreases e, 0int,
{
    lemma_prepare_list_succeeds(m, e.children@);
    lemma_prepare_list_ids(m, e.children@);
    let (m1, ok) = prepare_list(m, e.children@);
    if tree_inputs_in(m.dom(), e) {
        lemma_list_inputs_in_grow(m.dom(), m.dom(), e.children@);
    }
    assert forall|k: Seq<char>| m.contains_key(k) && count_tree(e, k) == 0 implies prepare_tree(
        m,
        e,
    ).0[k] == m[k] by {
        lemma_counts_nonneg(e, k);
        assert(m1[k] == m1[k]);
    }
    assert forall|k: Seq<char>| m.contains_key(k) implies prepare_tree(m, e).0.contains_key(k)
        && same_but_count(m[k], prepare_tree(m, e).0[k]) by {
        assert(m1[k] == m1[k]);
    }
}

/// Preparing trees whose inputs are all registered succeeds; see
/// `lemma_prepare_tree_succeeds`.
pub proof fn lemma_prepare_list_succeeds(m: Registry, es: Seq<Expression>)
    ensures
        list_inputs_in(m.dom(), es) ==> prepare_list(m, es).1,
        forall|k: Seq<char>|
            #![trigger prepare_list(m, es).0[k]]
            m.contains_key(k) && count_list(es, k) == 0 ==> prepare_list(m, es).0[k] == m[k],
        forall|k: Seq<char>|
            #![trigger prepare_list(m, es).0[k]]
            m.contains_key(k) ==> prepare_list(m, es).0.contains_key(k) && same_but_count(
                m[k],
                prepare_list(m, es).0[k],
            ),
    decreases es, 0int,
{
    if es.len() > 0 {
        lemma_prepare_list_succeeds(m, es.drop_last());
        lemma_prepare_list_ids(m, es.drop_last());
        let (m1, ok) = prepare_list(m, es.drop_last());
        lemma_prepare_tree_succeeds(m1, es.last());
        let m2 = prepare_tree(m1, es.last()).0;
        assert forall|k: Seq<char>| m1.contains_key(k) implies #[trigger] m2.contains_key(k)
            && same_but_count(m1[k], m2[k]) by {
            assert(m2[k] == prepare_tree(m1, es.last()).0[k]);
        }
        if list_inputs_in(m.dom(), es) {
            lemma_inputs_in_grow(m.dom(), m1.dom(), es.last());
        }
        assert forall|k: Seq<char>| m.contains_key(k) && count_list(es, k) == 0 implies prepare_list(
            m,
            es,
        ).0[k] == m[k] by {
            lemma_list_counts_nonneg(es.drop_last(), k);
            lemma_counts_nonneg(es.last(), k);
            assert(m1[k] == m1[k]);
        }
        assert forall|k: Seq<char>| m.contains_key(k) implies prepare_list(m, es).0.contains_key(k)
            && same_but_count(m[k], prepare_list(m, es).0[k]) by {
            assert(m1.contains_key(k));
            assert(m1[k] == m1[k]);
            assert(same_but_count(m[k], m1[k]));
            if ok {
                assert(prepare_list(m, es).0 == prepare_tree(m1, es.last()).0);
                assert(prepare_tree(m1, es.last()).0[k] == prepare_tree(m1, es.last()).0[k]);
                assert(prepare_tree(m1, es.last()).0.contains_key(k));
                assert(same_but_count(m1[k], prepare_tree(m1, es.last()).0[k]));
            }
        }
    }
}

/// `m2` keeps every id of `m1` and every ready mark.
pub open spec fn marks_kept(m1: Registry, m2: Registry) -> bool {
    forall|k: Seq<char>|
        #![trigger m1.contains_key(k)]
        m1.contains_key(k) ==> m2.contains_key(k) && (m1[k].description.prepared
            ==> m2[k].description.prepared)
}

proof fn lemma_outputs_ready_grow(m1: Registry, m2: Registry, e: Expression)
    requires
        tree_outputs_ready(m1, e),
        marks_kept(m1, m2),
    ensures
        tree_outputs_ready(m2, e),
    decreases e, 0int,
{
    assert(m2[e.output.id@] == m2[e.output.id@]);
    lemma_list_outputs_ready_grow(m1, m2, e.children@);
}

proof fn lemma_list_outputs_ready_grow(m1: Registry, m2: Registry, es: Seq<Expression>)
    requires
        list_outputs_ready(m1, es),
        marks_kept(m1, m2),
    ensures
        list_outputs_ready(m2, es),
    decreases es, 0int,
{
    if es.len() > 0 {
        lemma_list_outputs_ready_grow(m1, m2, es.drop_last());
        lemma_outputs_ready_grow(m1, m2, es.last());
    }
}

/// A batch that answers `Ok` has marked every output of every one of its
/// trees ready.
pub proof fn lemma_batch_ok_outputs_ready(m: Registry, es: Seq<Expression>)
    ensures
        ctx_run(m, es).1 is Ok ==> forall|i: int|
            0 <= i < es.len() ==> tree_outputs_ready(ctx_run(m, es).0, #[trigger] es[i]),
    decreases es.len(),
{
    if es.len() > 0 {
        lemma_batch_ok_outputs_ready(m, es.drop_last());
        let (m1, r) = ctx_run(m, es.drop_last());
        if r is Ok {
            let (m2, ok) = prepare_tree(m1, es.last());
            if ok {
                lemma_prepare_tree_ids(m1, es.last());
                lemma_prepare_tree_succeeds(m1, es.last());
                lemma_exec_tree_effect(m2, es.last());
                let m3 = exec_tree(m2, es.last()).0;
                if exec_tree(m2, es.last()).1 is Ok {
                    assert(marks_kept(m1, m3)) by {
                        assert forall|k: Seq<char>| m1.contains_key(k) implies m3.contains_key(k) && (
                        m1[k].description.prepared ==> m3[k].description.prepared) by {
                            assert(m2[k] == m2[k]);
                            assert(m3[k] == m3[k]);
                        }
                    }
                    assert forall|i: int| 0 <= i < es.len() implies tree_outputs_ready(
                        m3,
                        #[trigger] es[i],
                    ) by {
                        if i < es.len() - 1 {
                            assert(es.drop_last()[i] == es[i]);
                            lemma_outputs_ready_grow(m1, m3, es[i]);
                        }
                    }
                }
            }
        }
    }
}

// ----------------------------------------------------------------------
// Executable code
// ----------------------------------------------------------------------
/// Prepares the tree `expr`, children first: registers one more pending
/// reader of each input and an empty, not yet ready, entry for each output
/// that has none; fails at the first input that is not registered.
pub fn prepare_data(dm: &mut DataManager, expr: &Expression) -> (r: Result<(), &'static str>)
    requires
        old(dm).wf(),
    ensures
        final(dm).wf(),
        final(dm)@ == prepare_tree(old(dm)@, *expr).0,
        r is Ok <==> prepare_tree(old(dm)@, *expr).1,
        r is Err ==> r == Err::<(), &'static str>(MISSING_INPUT),
        tree_inputs_in(old(dm)@.dom(), *expr) ==> r is Ok,
        forall|k: Seq<char>|
            #![trigger final(dm)@[k]]
            old(dm)@.contains_key(k) && count_tree(*expr, k) == 0 ==> final(dm)@[k] == old(dm)@[k],
    decreases expr,
{
    proof {
        lemma_prepare_tree_succeeds(old(dm)@, *expr);
    }
    let mut i: usize = 0;
    while i < expr.children.len()
        invariant
            dm.wf(),
            i <= expr.children@.len(),
            prepare_list(old(dm)@, expr.children@.take(i as int)) == (dm@, true),
        decreases expr.children@.len() - i,
    {
        assert(expr.children@.take(i + 1).drop_last() =~= expr.children@.take(i as int));
        let child = &expr.children[i];
        let r = prepare_data(dm, child);
        if r.is_err() {
            proof {
                lemma_prepare_tree_succeeds(old(dm)@, *expr);
                lemma_prepare_list_stops(old(dm)@, expr.children@, i + 1, expr.children@.len() as int);
                assert(expr.children@.take(expr.children@.len() as int) =~= expr.children@);
            }
            return r;
        }
        i = i + 1;
    }
    assert(expr.children@.take(expr.children@.len() as int) =~= expr.children@);
    match dm.get_data_mut(expr.input.id.as_str()) {
        Some(target) => target.description.increase_in_use(),
        None => {
            proof {
                lemma_prepare_tree_succeeds(old(dm)@, *expr);
            }
            return Err(MISSING_INPUT);
        },
    }
    if !dm.contains(expr.output.id.as_str()) {
        let empty: Vec<u8> = Vec::new();
        dm.insert_with_status(expr.output.id.as_str(), &expr.output, empty.as_slice(), false)?;
    }
    proof {
        lemma_prepare_tree_succeeds(old(dm)@, *expr);
        assert(dm@ == prepare_tree(old(dm)@, *expr).0);
        assert forall|k: Seq<char>|
            old(dm)@.contains_key(k) && count_tree(*expr, k) == 0 implies dm@[k] == old(dm)@[k] by {
            assert(prepare_tree(old(dm)@, *expr).0[k] == dm@[k]);
        }
    }
    Ok(())
}

/// Whether every id that the tree `expr` reads or writes is registered.
pub fn tree_ids_registered(dm: &DataManager, expr: &Expression) -> (r: bool)
    requires
        dm.wf(),
    ensures
        r == tree_ids_in(dm@.dom(), *expr),
    decreases expr,
{
    if !dm.contains(expr.input.id.as_str()) || !dm.contains(expr.output.id.as_str()) {
        return false;
    }
    let mut i: usize = 0;
    while i < expr.children.len()
        invariant
            dm.wf(),
            i <= expr.children@.len(),
            list_ids_in(dm@.dom(), expr.children@.take(i as int)),
        decreases expr.children@.len() - i,
    {
        assert(expr.children@.take(i + 1).drop_last() =~= expr.children@.take(i as int));
        let child = &expr.children[i];
        if !tree_ids_registered(dm, child) {
            proof {
                if list_ids_in(dm@.dom(), expr.children@) {
                    lemma_list_ids_in_index(dm@.dom(), expr.children@, i as int);
                }
            }
            return false;
        }
        i = i + 1;
    }
    assert(expr.children@.take(expr.children@.len() as int) =~= expr.children@);
    true
}

/// Executes the tree `expr`, children first. Each expression needs a ready
/// input; it retires one pending reader of the input, and unless its output
/// is already ready it runs its operator and marks the output ready.
pub fn execute(dm: &mut DataManager, expr: &Expression) -> (r: Result<(), &'static str>)
    requires
        old(dm).wf(),
        tree_ids_in(old(dm)@.dom(), *expr),
    ensures
        final(dm).wf(),
        (final(dm)@, r) == exec_tree(old(dm)@, *expr),
    decreases expr,
{
    let mut i: usize = 0;
    while i < expr.children.len()
        invariant
            dm.wf(),
            i <= expr.children@.len(),
            exec_list(old(dm)@, expr.children@.take(i as int)) == (dm@, Ok::<(), &'static str>(())),
            dm@.dom() == old(dm)@.dom(),
            tree_ids_in(old(dm)@.dom(), *expr),
        decreases expr.children@.len() - i,
    {
        assert(expr.children@.take(i + 1).drop_last() =~= expr.children@.take(i as int));
        proof {
            lemma_list_ids_in_index(dm@.dom(), expr.children@, i as int);
        }
        let child = &expr.children[i];
        proof {
            lemma_exec_tree_dom(dm@, *child);
        }
        let r = execute(dm, child);
        if r.is_err() {
            proof {
                lemma_exec_list_stops(old(dm)@, expr.children@, i + 1, expr.children@.len() as int);
                assert(expr.children@.take(expr.children@.len() as int) =~= expr.children@);
            }
            return r;
        }
        i = i + 1;
    }
    assert(expr.children@.take(expr.children@.len() as int) =~= expr.children@);
    let in_id = expr.input.id.as_str();
    let out_id = expr.output.id.as_str();
    let input_prepared = dm.get_data(in_id).unwrap().description.prepared;
    if !input_prepared {
        return Err(INPUT_NOT_PREPARED);
    }
    let ghost m0 = dm@;
    {
        let target = dm.get_data_mut(in_id).unwrap();
        let r = target.description.decrease_in_use();
        if r.is_err() {
            proof {
                assert(dm@ =~= m0);
            }
            return r;
        }
    }
    let output_prepared = dm.get_data(out_id).unwrap().description.prepared;
    if output_prepared {
        return Ok(());
    }
    match expr.typ {
        ExprType::HASH => {
            let input = dm.get_data(in_id).unwrap();
            let output = dm.get_data(out_id).unwrap();
            hash_exec(&input.description, &output.description);
        },
        ExprType::SORT => {
            sort_exec(dm, &expr.input, &expr.output)?;
        },
        ExprType::MOD => {
            return Err(UNSUPPORTED);
        },
    }
    let target = dm.get_data_mut(out_id).unwrap();
    target.description.prepared = true;
    Ok(())
}

/// Runs a batch of trees in order: each is prepared, then executed; the
/// batch stops at the first error.
pub fn obli_op_ctx_exec(dm: &mut DataManager, ctx: &mut Context) -> (r: Result<(), &'static str>)
    requires
        old(dm).wf(),
    ensures
        final(dm).wf(),
        *final(ctx) == *old(ctx),
        (final(dm)@, r) == ctx_run(old(dm)@, old(ctx).expressions@),
        r is Ok ==> forall|i: int|
            0 <= i < old(ctx).expressions@.len() ==> tree_outputs_ready(
                final(dm)@,
                #[trigger] old(ctx).expressions@[i],
            ),
{
    proof {
        lemma_batch_ok_outputs_ready(old(dm)@, old(ctx).expressions@);
    }
    let ghost es = ctx.expressions@;
    let mut i: usize = 0;
    while i < ctx.expressions.len()
        invariant
            dm.wf(),
            ctx.expressions@ == es,
            i <= es.len(),
            ctx_run(old(dm)@, es.take(i as int)) == (dm@, Ok::<(), &'static str>(())),
        decreases es.len() - i,
    {
        assert(es.take(i + 1).drop_last() =~= es.take(i as int));
        let expr = &ctx.expressions[i];
        let ghost before = dm@;
        let r = prepare_data(dm, expr);
        if r.is_err() {
            proof {
                lemma_ctx_run_stops(old(dm)@, es, i + 1, es.len() as int);
                assert(es.take(es.len() as int) =~= es);
            }
            return r;
        }
        proof {
            lemma_prepare_tree_ids(before, *expr);
        }
        let r = execute(dm, expr);
        if r.is_err() {
            proof {
                lemma_ctx_run_stops(old(dm)@, es, i + 1, es.len() as int);
                assert(es.take(es.len() as int) =~= es);
            }
            return r;
        }
        i = i + 1;
    }
    assert(es.take(es.len() as int) =~= es);
    Ok(())
}

} // verus!
