//! Signal bookkeeping for psh.
//!
//! In rc, signal handlers are functions named after their signals:
//! `fn sigint { }` handles SIGINT.  The handlers themselves only count
//! receipts; the main loop polls the counts, in a fixed check order, and
//! dispatches to the functions of those that fired.

use vstd::prelude::*;

verus! {

/// A signal that psh handles: its number and the rc function name that
/// handles it (e.g. "sigint" for SIGINT).
#[derive(Debug, Clone, Copy)]
pub struct SignalInfo {
    pub signum: i32,
    pub name: &'static str,
}

/// Has the signal fired since the last check?
pub open spec fn fired(p: (&'static str, u64)) -> bool {
    p.1 > 0
}

/// The signals that fired: the (name, count) pairs with a count of at
/// least one, in check order.
pub open spec fn fired_signals(counts: Seq<(&'static str, u64)>) -> Seq<(&'static str, u64)> {
    counts.filter(fired_pred())
}

/// `fired`, as a predicate.
pub open spec fn fired_pred() -> spec_fn((&'static str, u64)) -> bool {
    |p: (&'static str, u64)| fired(p)
}

/// Given the receipt counts of the handled signals in check order,
/// returns (name, count) for each signal that fired at least once.
pub fn pending_signals(counts: &[(&'static str, u64)]) -> (r: Vec<(&'static str, u64)>)
    ensures
        r@ == fired_signals(counts@),
{
    let mut pending: Vec<(&'static str, u64)> = Vec::new();
    let mut i: usize = 0;
    proof {
        reveal_with_fuel(Seq::filter, 1);
        assert(fired_signals(counts@.take(0)) =~= Seq::<(&'static str, u64)>::empty());
    }
    while i < counts.len()
        invariant
            i <= counts.len(),
            pending@ == fired_signals(counts@.take(i as int)),
        decreases counts.len() - i,
    {
        proof {
            assert(counts@.take(i + 1).drop_last() == counts@.take(i as int));
            reveal_with_fuel(Seq::filter, 1);
        }
        let (name, count) = counts[i];
        if count > 0 {
            pending.push((name, count));
        }
        i += 1;
    }
    proof { assert(counts@.take(counts.len() as int) == counts@); }
    pending
}

/// Exactly the signals that fired are reported: every reported signal
/// has a count of at least one, and every signal with such a count is
/// reported.
pub proof fn law_pending_only_fired(counts: Seq<(&'static str, u64)>)
    ensures
        forall|k: int|
            0 <= k < fired_signals(counts).len() ==> #[trigger] fired_signals(counts)[k].1 > 0,
        fired_signals(counts).len() <= counts.len(),
        forall|k: int| 0 <= k < counts.len() && counts[k].1 > 0 ==> fired_signals(counts).contains(
            #[trigger] counts[k],
        ),
{
    broadcast use vstd::seq_lib::group_filter_ensures;
    assert forall|k: int| 0 <= k < counts.len() && counts[k].1 > 0 implies fired_signals(
        counts,
    ).contains(#[trigger] counts[k]) by {
        counts.lemma_filter_contains(fired_pred(), k);
    }
}

/// The handled signals' rc function names with their receipt counts, in
/// check order: SIGCHLD first (reaping children before other dispatch
/// keeps zombies from accumulating), then SIGINT, SIGTSTP, SIGCONT,
/// SIGWINCH, SIGHUP and SIGTERM.
pub open spec fn check_order(
    chld: u64,
    intr: u64,
    tstp: u64,
    cont: u64,
    winch: u64,
    hup: u64,
    term: u64,
) -> Seq<(&'static str, u64)> {
    seq![
        ("sigchld", chld),
        ("sigint", intr),
        ("sigtstp", tstp),
        ("sigcont", cont),
        ("sigwinch", winch),
        ("sighup", hup),
        ("sigterm", term),
    ]
}

/// The pending signals given the receipt count of each handled signal:
/// (name, count) for each that fired at least once, in check order.
pub fn take_pending_from(
    chld: u64,
    intr: u64,
    tstp: u64,
    cont: u64,
    winch: u64,
    hup: u64,
    term: u64,
) -> (r: Vec<(&'static str, u64)>)
    ensures
        r@ == fired_signals(check_order(chld, intr, tstp, cont, winch, hup, term)),
{
    let counts = [
        ("sigchld", chld),
        ("sigint", intr),
        ("sigtstp", tstp),
        ("sigcont", cont),
        ("sigwinch", winch),
        ("sighup", hup),
        ("sigterm", term),
    ];
    proof { assert(counts@ =~= check_order(chld, intr, tstp, cont, winch, hup, term)); }
    pending_signals(&counts)
}

} // verus!
