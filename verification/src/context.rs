//! Task context words shared by task creation and trap frames.
use vstd::prelude::*;

verus! {

/// Words of the unified 272-byte task context.
pub const TASK_CONTEXT_WORDS: usize = 68;

/// Bytes of the unified task context.
pub const TASK_CONTEXT_BYTES: usize = 272;

/// Machine status of a task that has not run yet: machine mode with interrupts
/// enabled on return and a live floating-point unit.
pub const INITIAL_MSTATUS: u32 = 0x7880;

/// Unified 272-byte task context shared with trap frames.
#[derive(Clone, Copy)]
pub struct TaskContext {
    pub mstatus: u32,
    pub mepc: u32,
    pub tp: u32,
    pub sp: u32,
    /// s11..s0
    pub s: [u32; 12],
    /// t6..t3, a7..a0, t2..t0, ra
    pub caller_gpr: [u32; 16],
    /// fs11..fs0, ft11..ft0
    pub f: [u32; 32],
    pub fcsr: u32,
    pub reserved: [u32; 3],
}

impl TaskContext {
    /// The context in frame order.
    pub open spec fn words(self) -> Seq<u32> {
        seq![self.mstatus, self.mepc, self.tp, self.sp] + self.s@ + self.caller_gpr@ + self.f@
            + seq![self.fcsr] + self.reserved@
    }

    /// A context fills its frame exactly.
    pub proof fn law_context_fills_its_frame(self)
        ensures
            self.words().len() == TASK_CONTEXT_WORDS,
            self.words().len() * 4 == TASK_CONTEXT_BYTES,
    {
    }

    /// A context with every register zero.
    pub open spec fn blank() -> TaskContext {
        TaskContext {
            mstatus: 0,
            mepc: 0,
            tp: 0,
            sp: 0,
            s: [0u32; 12usize],
            caller_gpr: [0u32; 16usize],
            f: [0u32; 32usize],
            fcsr: 0,
            reserved: [0u32; 3usize],
        }
    }

    /// A zeroed context that enters `mepc` on the stack that ends at `sp`.
    pub open spec fn entering(
        mstatus: u32,
        mepc: u32,
        tp: u32,
        sp: u32,
        fcsr: u32,
    ) -> TaskContext {
        TaskContext { mstatus, mepc, tp, sp, fcsr, ..TaskContext::blank() }
    }

    pub fn zero() -> (r: Self)
        ensures
            r == TaskContext::blank(),
            r.words() == Seq::new(68, |i: int| 0u32),
    {
        let r = TaskContext {
            mstatus: 0,
            mepc: 0,
            tp: 0,
            sp: 0,
            s: [0;12],
            caller_gpr: [0;16],
            f: [0;32],
            fcsr: 0,
            reserved: [0;3],
        };
        assert(r.words() =~= Seq::new(68, |i: int| 0u32));
        r
    }

    /// A zeroed context that enters `entry` on the stack that ends at `sp`.
    pub fn fresh(mstatus: u32, mepc: u32, tp: u32, sp: u32, fcsr: u32) -> (r: Self)
        ensures
            r.words() == Seq::new(68, |i: int| 0u32).update(0, mstatus).update(1, mepc).update(
                2,
                tp,
            ).update(3, sp).update(64, fcsr),
            r == TaskContext::entering(mstatus, mepc, tp, sp, fcsr),
    {
        let mut r = TaskContext::zero();
        let ghost zero = r.words();
        r.mstatus = mstatus;
        r.mepc = mepc;
        r.tp = tp;
        r.sp = sp;
        r.fcsr = fcsr;
        proof {
            assert forall|i: int| 0 <= i < 68 implies zero[i] == 0 by {}
            assert(r.words() =~= Seq::new(68, |i: int| 0u32).update(0, mstatus).update(
                1,
                mepc,
            ).update(2, tp).update(3, sp).update(64, fcsr)) by {
                assert forall|i: int| 0 <= i < 68 && i != 0 && i != 1 && i != 2 && i != 3 && i
                    != 64 implies r.words()[i] == zero[i] by {}
            }
        }
        r
    }
}

/// The words of a fresh trap frame and the address at which they belong.
///
/// The frame is the topmost 272 bytes of the stack that ends at `top`; restoring
/// it enters `entry` with the stack pointer at `top`.
pub fn initialize_irq_frame(top: usize, entry: u32, tp: u32, sp: u32, fcsr: u32) -> (r: (
    usize,
    TaskContext,
))
    requires
        top >= TASK_CONTEXT_BYTES,
    ensures
        r.0 == top - 4 * TASK_CONTEXT_WORDS,
        r.1.words() == Seq::new(68, |i: int| 0u32).update(0, INITIAL_MSTATUS).update(
            1,
            entry,
        ).update(2, tp).update(3, sp).update(64, fcsr),
{
    (top - TASK_CONTEXT_BYTES, TaskContext::fresh(INITIAL_MSTATUS, entry, tp, sp, fcsr))
}

} // verus!
