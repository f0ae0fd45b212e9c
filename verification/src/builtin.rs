//! What the built-in nodes decide, and the shared counter resource.
//!
//! The nodes themselves (receiving, computing, sending) run on channels and
//! live with the runtime; what they decide is here.
use crate::envelope::SealedEnvelope;
use crate::error::Error;
use crate::text::{concat2, str_eq};
use crate::wiring::{debug_str, debug_text};
use std::sync::atomic::{AtomicU64, Ordering};
use vstd::prelude::*;

verus! {

/// The operators a [`BinaryOp`] node knows.
pub open spec fn known_op(op: Seq<char>) -> bool {
    op == "+"@ || op == "-"@ || op == "*"@ || op == "/"@
}

/// The message for an unknown operator.
pub open spec fn unknown_op_msg(op: Seq<char>) -> Seq<char> {
    "未知运算符 "@ + debug_str(op)
}

/// Whether `x op y` is defined on `i32`: no overflow, no division by zero.
pub open spec fn op_defined(op: Seq<char>, x: i32, y: i32) -> bool {
    &&& op == "+"@ ==> i32::MIN <= x + y <= i32::MAX
    &&& op == "-"@ ==> i32::MIN <= x - y <= i32::MAX
    &&& op == "*"@ ==> i32::MIN <= x * y <= i32::MAX
    &&& op == "/"@ ==> y != 0 && !(x == i32::MIN && y == -1)
}

/// Integer division truncating toward zero, as Rust's `/` on integers.
pub open spec fn trunc_div(x: int, y: int) -> int {
    if x >= 0 && y > 0 {
        x / y
    } else if x < 0 && y < 0 {
        (-x) / (-y)
    } else if x >= 0 && y < 0 {
        -(x / (-y))
    } else {
        -((-x) / y)
    }
}

/// `x / y` rounded toward zero, computed on magnitudes.
fn trunc_div_i32(x: i32, y: i32) -> (r: i32)
    requires
        y != 0,
        !(x == i32::MIN && y == -1),
    ensures
        r == trunc_div(x as int, y as int),
{
    let xa: i64 = x as i64;
    let ya: i64 = y as i64;
    let mx: i64 = if xa < 0 { -xa } else { xa };
    let my: i64 = if ya < 0 { -ya } else { ya };
    let q: i64 = mx / my;
    proof {
        assert(0 <= q <= mx) by (nonlinear_arith)
            requires
                q == mx / my,
                mx >= 0,
                my >= 1,
        ;
        if mx == 2147483648 && my == 1 {
            assert(xa < 0 && ya > 0);
        }
    }
    let r: i64 = if (xa < 0) != (ya < 0) { -q } else { q };
    proof {
        if my == 1 {
            assert(q == mx) by (nonlinear_arith)
                requires
                    q == mx / my,
                    my == 1,
            ;
        } else {
            assert(q <= mx / 2) by (nonlinear_arith)
                requires
                    q == mx / my,
                    mx >= 0,
                    my >= 2,
            ;
        }
    }
    r as i32
}

/// A node that combines one integer from each of two inputs with an operator.
pub struct BinaryOp {
    pub op: String,
}

impl BinaryOp {
    /// `x op y` for "+", "-", "*", "/" (division truncates toward zero); any
    /// other operator is refused as a bad `op` argument.
    pub fn apply(&self, x: i32, y: i32) -> (r: Result<i32, Error>)
        requires
            op_defined(self.op@, x, y),
        ensures
            self.op@ == "+"@ ==> r == Ok::<i32, Error>((x + y) as i32),
            self.op@ == "-"@ ==> r == Ok::<i32, Error>((x - y) as i32),
            self.op@ == "*"@ ==> r == Ok::<i32, Error>((x * y) as i32),
            self.op@ == "/"@ ==> r == Ok::<i32, Error>(trunc_div(x as int, y as int) as i32),
            !known_op(self.op@) ==> (r matches Err(Error::Arg { key, msg }) && key@ == "op"@ && msg@
                == unknown_op_msg(self.op@)),
    {
        proof {
            reveal_strlit("+");
            reveal_strlit("-");
            reveal_strlit("*");
            reveal_strlit("/");
            assert("+"@[0] != "-"@[0] && "+"@[0] != "*"@[0] && "+"@[0] != "/"@[0]);
            assert("-"@[0] != "*"@[0] && "-"@[0] != "/"@[0] && "*"@[0] != "/"@[0]);
        }
        let op = self.op.as_str();
        if str_eq(op, "+") {
            Ok(x + y)
        } else if str_eq(op, "-") {
            Ok(x - y)
        } else if str_eq(op, "*") {
            Ok(x * y)
        } else if str_eq(op, "/") {
            Ok(trunc_div_i32(x, y))
        } else {
            let d = debug_text(op);
            Err(Error::Arg { key: crate::text::owned("op"), msg: concat2("未知运算符 ", d.as_str()) })
        }
    }
}

/// A shared counter, safe to bump from many tasks at once.
pub struct Counter {
    count: AtomicU64,
}

impl Counter {
    /// A counter at zero.
    pub fn new() -> (r: Counter) {
        Counter { count: AtomicU64::new(0) }
    }

    /// Adds one and returns the count after this addition (std's atomic
    /// `fetch_add`, relaxed; the count wraps past `u64::MAX`).  Other tasks
    /// may bump concurrently, so nothing more is known of the value.
    pub fn bump(&self) -> (r: u64) {
        let before = self.count.fetch_add(1, Ordering::Relaxed);
        before.wrapping_add(1)
    }

    /// The current count (std's atomic `load`, relaxed).
    pub fn get(&self) -> (r: u64) {
        self.count.load(Ordering::Relaxed)
    }
}

/// A broadcast node: each message received on its input goes to every
/// output of its list port.
pub struct Bcast {}

impl Bcast {
    /// What to send for one received message over `outputs` outputs, in
    /// output order: a clone for every output but the last, and the message
    /// itself for the last.  With no output the message is dropped.
    pub fn copies(&self, msg: SealedEnvelope, outputs: usize) -> (r: Vec<SealedEnvelope>)
        ensures
            r@.len() == outputs,
            outputs > 0 ==> r@[outputs - 1] == msg,
            forall|i: int| 0 <= i < outputs - 1 ==> cloned(msg, #[trigger] r@[i]),
    {
        let mut r: Vec<SealedEnvelope> = Vec::new();
        if outputs == 0 {
            return r;
        }
        let mut i: usize = 0;
        while i + 1 < outputs
            invariant
                i + 1 <= outputs,
                r@.len() == i,
                forall|k: int| 0 <= k < i ==> cloned(msg, #[trigger] r@[k]),
            decreases outputs - i,
        {
            let c = msg.clone();
            r.push(c);
            i = i + 1;
        }
        r.push(msg);
        r
    }
}

/// A merge node: forwards whichever of its list-port inputs delivers first.
pub struct Merge {}

impl Merge {
    /// Whether there is anything to wait on: a merge node with no input
    /// channel at all is finished, as if its inputs were closed.
    pub fn check_inputs(&self, inputs: usize) -> (r: Result<(), Error>)
        ensures
            inputs == 0 ==> r matches Err(Error::ChannelClosed),
            inputs > 0 ==> r is Ok,
    {
        if inputs == 0 {
            Err(Error::ChannelClosed)
        } else {
            Ok(())
        }
    }
}

/// A node that forwards every message and counts it on a shared counter;
/// `res` names the counter resource it borrows.
pub struct Tally {
    pub res: String,
}

impl Tally {
    /// Counts one message on the counter, when the node found one; the
    /// count after this message (see [`Counter::bump`]) is returned.
    pub fn record(&self, counter: Option<&Counter>) -> (r: Option<u64>)
        ensures
            r is Some <==> counter is Some,
    {
        match counter {
            Some(c) => Some(c.bump()),
            None => None,
        }
    }
}

} // verus!
