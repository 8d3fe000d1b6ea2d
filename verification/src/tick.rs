//! One turn of the picker: what has come in since the last one is taken in.

use crate::cache::elapsed_ms;
use crate::model::{Config, Entry, Goto, Payload};
use crate::picker::{payload_taken, Host, OpResult, Picker, Signal, SPINNER_MS};
use crate::picker_tree::{calls_for_refresh, op_handled, reconciled};
use vstd::prelude::*;

verus! {

/// The spinner goes on to its next frame when its time has come. While there
/// are no entries a frame lasts `spin_up_ms`.
pub open spec fn spun(a: Picker, now: u64, spin_up_ms: u64) -> Picker {
    let frame_ms = if a.entries@.len() == 0 {
        spin_up_ms
    } else {
        SPINNER_MS
    };
    if elapsed_ms(a.last_spinner, now) >= frame_ms {
        Picker {
            spinner: if a.spinner == usize::MAX {
                0
            } else {
                (a.spinner + 1) as usize
            },
            last_spinner: now,
            ..a
        }
    } else {
        a
    }
}

/// The picker goes through these states as it learns what came of each
/// addition, in order.
pub open spec fn ops_run<
    R: Fn(&Vec<Entry>, &String, &Config) -> Vec<usize>,
    H: Fn(&Vec<Entry>, &Vec<usize>) -> usize,
    C: Fn(&Entry) -> String,
>(host: Host<R, H, C>, states: Seq<Picker>, ops: Seq<OpResult>) -> bool {
    &&& states.len() == ops.len() + 1
    &&& forall|i: int|
        0 <= i < ops.len() ==> op_handled(host, states[i], #[trigger] ops[i], states[i + 1])
}

/// How many of the first `n` additions call for a new list.
pub open spec fn refreshes(states: Seq<Picker>, ops: Seq<OpResult>, n: int) -> nat
    decreases n,
{
    if n <= 0 {
        0
    } else if calls_for_refresh(states[n - 1], ops[n - 1]) {
        refreshes(states, ops, n - 1) + 1
    } else {
        refreshes(states, ops, n - 1)
    }
}

proof fn lemma_refreshes(xs: Seq<Picker>, ys: Seq<Picker>, ops: Seq<OpResult>, n: int)
    requires
        forall|i: int| 0 <= i < n ==> #[trigger] xs[i] == ys[i],
    ensures
        refreshes(xs, ops, n) == refreshes(ys, ops, n),
    decreases n,
{
    if n > 0 {
        lemma_refreshes(xs, ys, ops, n - 1);
        assert(xs[n - 1] == ys[n - 1]);
    }
}

/// The picker goes through these states as it takes over what the daemon sent,
/// in order. A fetch that failed sends nothing.
pub open spec fn payloads_run<
    R: Fn(&Vec<Entry>, &String, &Config) -> Vec<usize>,
    H: Fn(&Vec<Entry>, &Vec<usize>) -> usize,
    C: Fn(&Entry) -> String,
>(host: Host<R, H, C>, states: Seq<Picker>, payloads: Seq<Option<Payload>>) -> bool {
    &&& states.len() == payloads.len() + 1
    &&& forall|i: int|
        0 <= i < payloads.len() ==> match #[trigger] payloads[i] {
            Some(payload) => payload_taken(host, states[i], payload, states[i + 1]),
            None => states[i + 1] == states[i],
        }
}

/// What the picker asks of its terminal: to go where it is to go, else to
/// close if it is to close.
pub open spec fn signal_of(p: Picker) -> Signal {
    match p.pending_goto {
        Some(g) => Signal::Goto(g),
        None => if p.quit {
            Signal::Close
        } else {
            Signal::Stay
        },
    }
}

/// One turn of the picker.
pub open spec fn ticked<
    R: Fn(&Vec<Entry>, &String, &Config) -> Vec<usize>,
    H: Fn(&Vec<Entry>, &Vec<usize>) -> usize,
    C: Fn(&Entry) -> String,
>(
    host: Host<R, H, C>,
    a: Picker,
    now: u64,
    ops: Seq<OpResult>,
    payloads: Seq<Option<Payload>>,
    b: Picker,
    r: (Signal, usize),
) -> bool {
    exists|xs: Seq<Picker>, ys: Seq<Picker>, z: Picker|
        {
            &&& #[trigger] ops_run(host, xs, ops)
            &&& #[trigger] payloads_run(host, ys, payloads)
            &&& #[trigger] reconciled(host, ys.last(), now, z)
            &&& xs[0] == a
            &&& ys[0] == xs.last()
            &&& b == (Picker { pending_goto: None, ..z })
            &&& r.0 == signal_of(z)
            &&& r.1 == refreshes(xs, ops, ops.len() as int)
        }
}

impl Picker {
    fn spin(&mut self, now: u64, spin_up_ms: u64)
        ensures
            *final(self) == spun(*old(self), now, spin_up_ms),
    {
        let frame_ms: u64 = if self.entries.len() == 0 {
            spin_up_ms
        } else {
            SPINNER_MS
        };
        let ms: u64 = if now >= self.last_spinner {
            (now - self.last_spinner) / 1_000_000
        } else {
            0
        };
        if ms >= frame_ms {
            self.spinner = if self.spinner == usize::MAX {
                0
            } else {
                self.spinner + 1
            };
            self.last_spinner = now;
        }
    }

    /// One turn of the picker. `ops` and `payloads` are what has come in since
    /// the last one. Hands back what is to be done, and how many times the list
    /// is to be fetched anew: once for each working tree that is there.
    pub fn tick<
        R: Fn(&Vec<Entry>, &String, &Config) -> Vec<usize>,
        H: Fn(&Vec<Entry>, &Vec<usize>) -> usize,
        C: Fn(&Entry) -> String,
    >(
        &mut self,
        now: u64,
        spin_up_ms: u64,
        ops: Vec<OpResult>,
        payloads: Vec<Option<Payload>>,
        host: &Host<R, H, C>,
    ) -> (r: (Signal, usize))
        requires
            host.usable(),
        ensures
            ticked(
                *host,
                spun(*old(self), now, spin_up_ms),
                now,
                ops@,
                payloads@,
                *final(self),
                r,
            ),
            old(self).wf() ==> final(self).wf(),
    {
        let ghost sound = self.wf();
        self.spin(now, spin_up_ms);
        let ghost all_ops = ops@;
        let ghost mut xs: Seq<Picker> = seq![*self];
        let mut ops: Vec<OpResult> = ops;
        let count: usize = ops.len();
        let mut refresh: usize = 0;
        let ghost mut k: int = 0;
        proof {
            assert(all_ops.skip(0) =~= all_ops);
        }
        while ops.len() > 0
            invariant
                host.usable(),
                0 <= k <= all_ops.len(),
                ops@ == all_ops.skip(k),
                ops_run(*host, xs, all_ops.take(k)),
                xs[0] == spun(*old(self), now, spin_up_ms),
                xs.last() == *self,
                count == all_ops.len(),
                refresh == refreshes(xs, all_ops, k),
                refresh <= k,
                sound ==> self.wf(),
            decreases ops@.len(),
        {
            let op: OpResult = ops.remove(0);
            let wanted: bool = self.handle_op(op, host);
            if wanted {
                refresh += 1;
            }
            proof {
                assert(ops@ =~= all_ops.skip(k + 1));
                let done = all_ops.take(k);
                let next = all_ops.take(k + 1);
                let ws = xs.push(*self);
                assert(next[k] == op);
                assert forall|i: int| 0 <= i < next.len() implies op_handled(
                    *host,
                    ws[i],
                    #[trigger] next[i],
                    ws[i + 1],
                ) by {
                    if i < k {
                        assert(done[i] == next[i]);
                    }
                }
                lemma_refreshes(xs, ws, all_ops, k);
                xs = ws;
                k = k + 1;
            }
        }
        proof {
            assert(all_ops.take(k) =~= all_ops);
        }
        let ghost all = payloads@;
        let ghost mut ys: Seq<Picker> = seq![*self];
        let mut payloads: Vec<Option<Payload>> = payloads;
        proof {
            k = 0;
            assert(all.skip(0) =~= all);
        }
        while payloads.len() > 0
            invariant
                host.usable(),
                0 <= k <= all.len(),
                payloads@ == all.skip(k),
                payloads_run(*host, ys, all.take(k)),
                ys[0] == xs.last(),
                ys.last() == *self,
                sound ==> self.wf(),
            decreases payloads@.len(),
        {
            let sent: Option<Payload> = payloads.remove(0);
            let ghost was = sent;
            if let Some(payload) = sent {
                self.take_payload(payload, host);
            }
            proof {
                assert(payloads@ =~= all.skip(k + 1));
                let done = all.take(k);
                let next = all.take(k + 1);
                let ws = ys.push(*self);
                assert(next[k] == was);
                assert forall|i: int| 0 <= i < next.len() implies match #[trigger] next[i] {
                    Some(payload) => payload_taken(*host, ws[i], payload, ws[i + 1]),
                    None => ws[i + 1] == ws[i],
                } by {
                    if i < k {
                        assert(done[i] == next[i]);
                    }
                }
                ys = ws;
                k = k + 1;
            }
        }
        proof {
            assert(all.take(k) =~= all);
        }
        self.reconcile_pending(now, host);
        let ghost z = *self;
        let goto: Option<Goto> = self.pending_goto.take();
        proof {
            assert(ops_run(*host, xs, all_ops));
            assert(payloads_run(*host, ys, all));
            assert(reconciled(*host, ys.last(), now, z));
        }
        if let Some(g) = goto {
            return (Signal::Goto(g), refresh);
        }
        if self.quit {
            (Signal::Close, refresh)
        } else {
            (Signal::Stay, refresh)
        }
    }
}

} // verus!
