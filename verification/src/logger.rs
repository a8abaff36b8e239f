//! A buffer of log lines that the caller drains one line at a time.
use vstd::multiset::Multiset;
use vstd::prelude::*;

verus! {

/// The log lines that are waiting to be read.
pub struct Logger {
    log_buf: Vec<String>,
}

/// The lines left after `next` takes the first one: the last line moves into
/// the first place.
pub open spec fn after_next(s: Seq<String>) -> Seq<String>
    recommends
        s.len() > 0,
{
    s.update(0, s.last()).drop_last()
}

impl View for Logger {
    type V = Seq<String>;

    closed spec fn view(&self) -> Seq<String> {
        self.log_buf@
    }
}

impl Logger {
    /// A logger that holds no line.
    pub fn new() -> (r: Logger)
        ensures
            r@ == Seq::<String>::empty(),
    {
        Logger { log_buf: Vec::new() }
    }

    /// Appends a line.
    pub fn log(&mut self, info: String)
        ensures
            final(self)@ == old(self)@.push(info),
    {
        self.log_buf.push(info);
    }

    /// Takes the first waiting line, if any; the last line takes its place.
    pub fn next(&mut self) -> (r: Option<String>)
        ensures
            old(self)@.len() == 0 ==> r is None && final(self)@ == old(self)@,
            old(self)@.len() > 0 ==> r == Some(old(self)@[0]) && final(self)@ == after_next(old(self)@),
            old(self)@.len() > 1 ==> final(self)@ == seq![old(self)@.last()] + old(self)@.subrange(
                1,
                old(self)@.len() - 1,
            ),
            old(self)@.len() == 1 ==> final(self)@ == Seq::<String>::empty(),
    {
        if self.log_buf.len() > 0 {
            proof {
                lemma_next_moves_last_first(self.log_buf@);
            }
            Some(self.log_buf.swap_remove(0))
        } else {
            None
        }
    }
}

/// Taking the first line moves the last line into its place and leaves
/// every other line where it was; taking the only line leaves none.
pub proof fn lemma_next_moves_last_first(s: Seq<String>)
    ensures
        s.len() > 1 ==> after_next(s) == seq![s.last()] + s.subrange(1, s.len() - 1),
        s.len() > 1 ==> after_next(s)[0] == s[s.len() - 1],
        forall|i: int| 0 < i < s.len() - 1 ==> #[trigger] after_next(s)[i] == s[i],
        s.len() == 1 ==> after_next(s) == Seq::<String>::empty(),
{
    if s.len() > 1 {
        assert(after_next(s) =~= seq![s.last()] + s.subrange(1, s.len() - 1));
    }
    if s.len() == 1 {
        assert(after_next(s) =~= Seq::<String>::empty());
    }
}

/// Taking a line loses nothing: the line handed out and the lines left are,
/// together, the lines that were waiting, and one fewer line waits.
pub proof fn lemma_next_keeps_lines(s: Seq<String>)
    requires
        s.len() > 0,
    ensures
        after_next(s).len() == s.len() - 1,
        after_next(s).to_multiset().insert(s[0]) == s.to_multiset(),
{
    broadcast use vstd::seq_lib::group_to_multiset_ensures;
    broadcast use vstd::multiset::group_multiset_axioms;
    if s.len() == 1 {
        assert(after_next(s) =~= s.remove(0));
    } else {
        let mid = s.subrange(1, s.len() - 1);
        assert(after_next(s) =~= seq![s.last()] + mid);
        assert(s.remove(0) =~= mid + seq![s.last()]);
        vstd::seq_lib::lemma_multiset_commutative(seq![s.last()], mid);
        vstd::seq_lib::lemma_multiset_commutative(mid, seq![s.last()]);
        assert(mid.to_multiset().add(seq![s.last()].to_multiset()) =~= seq![s.last()].to_multiset().add(
            mid.to_multiset(),
        ));
    }
    assert(after_next(s).to_multiset() == s.remove(0).to_multiset());
    assert(s.remove(0).to_multiset() == s.to_multiset().remove(s[0]));
    assert(s.to_multiset().count(s[0]) > 0) by {
        assert(s.contains(s[0]));
    }
    assert(s.to_multiset().remove(s[0]).insert(s[0]) =~= s.to_multiset());
}

/// A line logged into an empty logger is the next line read.
pub proof fn lemma_log_then_next(info: String)
    ensures
        Seq::<String>::empty().push(info)[0] == info,
        after_next(Seq::<String>::empty().push(info)) == Seq::<String>::empty(),
{
    assert(after_next(Seq::<String>::empty().push(info)) =~= Seq::<String>::empty());
}

/// One call on a logger: `log` of a line, or `next`.
pub enum LogOp {
    Log(String),
    Next,
}

/// The lines waiting and the lines handed out, in order, after the calls
/// `ops` on a logger whose waiting lines were `s`.
pub open spec fn run_log(s: Seq<String>, ops: Seq<LogOp>) -> (Seq<String>, Seq<String>)
    decreases ops.len(),
{
    if ops.len() == 0 {
        (s, Seq::empty())
    } else {
        let (w, out) = run_log(s, ops.drop_last());
        match ops.last() {
            LogOp::Log(m) => (w.push(m), out),
            LogOp::Next => if w.len() > 0 {
                (after_next(w), out.push(w[0]))
            } else {
                (w, out)
            },
        }
    }
}

/// The lines that the calls `ops` log, in order.
pub open spec fn logged(ops: Seq<LogOp>) -> Seq<String>
    decreases ops.len(),
{
    if ops.len() == 0 {
        Seq::empty()
    } else {
        match ops.last() {
            LogOp::Log(m) => logged(ops.drop_last()).push(m),
            LogOp::Next => logged(ops.drop_last()),
        }
    }
}

/// The calls that log the lines `ms`, in order.
pub open spec fn logs(ms: Seq<String>) -> Seq<LogOp> {
    ms.map_values(|m: String| LogOp::Log(m))
}

/// What calling `next` until it answers `None` hands out, from the waiting
/// lines `s`.
pub open spec fn drained(s: Seq<String>) -> Seq<String>
    decreases s.len(),
{
    if s.len() == 0 {
        Seq::empty()
    } else {
        seq![s[0]] + drained(after_next(s))
    }
}

/// Over any history of calls, no line is lost, made up or handed out twice:
/// the lines waiting and the lines handed out are, together, the lines that
/// were waiting and the lines logged. From an empty logger, what is handed
/// out is therefore part of what was logged.
pub proof fn lemma_history_keeps_lines(s: Seq<String>, ops: Seq<LogOp>)
    ensures
        run_log(s, ops).0.to_multiset().add(run_log(s, ops).1.to_multiset()) == s.to_multiset().add(
            logged(ops).to_multiset(),
        ),
        s.len() == 0 ==> run_log(s, ops).1.to_multiset().subset_of(logged(ops).to_multiset()),
    decreases ops.len(),
{
    broadcast use vstd::seq_lib::group_to_multiset_ensures;
    broadcast use vstd::multiset::group_multiset_axioms;
    if ops.len() > 0 {
        lemma_history_keeps_lines(s, ops.drop_last());
        let w = run_log(s, ops.drop_last()).0;
        let out = run_log(s, ops.drop_last()).1;
        let lg = logged(ops.drop_last());
        assert(w.to_multiset().add(out.to_multiset()) =~= s.to_multiset().add(lg.to_multiset()));
        match ops.last() {
            LogOp::Log(m) => {
                vstd::seq_lib::to_multiset_build(w, m);
                vstd::seq_lib::to_multiset_build(lg, m);
                let wm = w.to_multiset();
                let om = out.to_multiset();
                let sm = s.to_multiset();
                let lm = lg.to_multiset();
                assert(wm.insert(m).add(om) =~= wm.add(om).insert(m));
                assert(sm.add(lm.insert(m)) =~= sm.add(lm).insert(m));
                assert(w.push(m).to_multiset().add(out.to_multiset()) =~= s.to_multiset().add(
                    lg.push(m).to_multiset(),
                ));
            },
            LogOp::Next => {
                if w.len() > 0 {
                    lemma_next_keeps_lines(w);
                    assert(after_next(w).to_multiset().add(out.push(w[0]).to_multiset())
                        =~= w.to_multiset().add(out.to_multiset()));
                }
            },
        }
    }
    if s.len() == 0 {
        assert(s.to_multiset() =~= Multiset::<String>::empty());
        let w = run_log(s, ops).0;
        let out = run_log(s, ops).1;
        assert forall|x: String| out.to_multiset().count(x) <= logged(ops).to_multiset().count(x) by {
            assert(w.to_multiset().add(out.to_multiset()).count(x) == logged(ops).to_multiset().count(x));
        }
        assert(out.to_multiset().subset_of(logged(ops).to_multiset()));
    }
}

/// Calling `next` until it answers `None` hands out every waiting line
/// exactly once.
pub proof fn lemma_drain_hands_out_each_once(s: Seq<String>)
    ensures
        drained(s).to_multiset() == s.to_multiset(),
    decreases s.len(),
{
    broadcast use vstd::seq_lib::group_to_multiset_ensures;
    broadcast use vstd::multiset::group_multiset_axioms;
    if s.len() > 0 {
        lemma_next_keeps_lines(s);
        lemma_drain_hands_out_each_once(after_next(s));
        vstd::seq_lib::lemma_multiset_commutative(seq![s[0]], drained(after_next(s)));
        assert(seq![s[0]].to_multiset() =~= Multiset::<String>::empty().insert(s[0])) by {
            assert(Seq::<String>::empty().push(s[0]) =~= seq![s[0]]);
        }
        assert(drained(s).to_multiset() =~= s.to_multiset());
    }
}

/// Logging lines into an empty logger leaves them waiting in order, so the
/// first `next` hands out the oldest.
pub proof fn lemma_logs_wait_in_order(ms: Seq<String>)
    ensures
        run_log(Seq::empty(), logs(ms)).0 == ms,
        run_log(Seq::empty(), logs(ms)).1 == Seq::<String>::empty(),
        ms.len() > 0 ==> run_log(Seq::empty(), logs(ms).push(LogOp::Next)).1 == seq![ms[0]],
    decreases ms.len(),
{
    if ms.len() > 0 {
        lemma_logs_wait_in_order(ms.drop_last());
        assert(logs(ms).drop_last() =~= logs(ms.drop_last()));
        assert(ms.drop_last().push(ms.last()) =~= ms);
        assert(logs(ms).push(LogOp::Next).drop_last() =~= logs(ms));
        assert(Seq::<String>::empty().push(ms[0]) =~= seq![ms[0]]);
    }
}

} // verus!
