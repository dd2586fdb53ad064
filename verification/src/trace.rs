//! The execution trace: one row of 13 columns per clock cycle,
//! padded with frozen NOP rows to a power-of-two length.
use crate::field::{fmod, Fp, P};
use vstd::arithmetic::power2::is_pow2;
use vstd::prelude::*;

verus! {

broadcast use crate::field::group_fp;

/// Number of trace columns.
pub const NUM_COLUMNS: usize = 13;

/// One row of the execution trace.
#[derive(Debug, Clone, Copy)]
pub struct TraceRow {
    pub clk: Fp,
    pub pc: Fp,
    pub opcode: Fp,
    pub rd: Fp,
    pub rs1: Fp,
    pub rs2: Fp,
    pub imm: Fp,
    pub r0: Fp,
    pub r1: Fp,
    pub r2: Fp,
    pub r3: Fp,
    pub rs1_val: Fp,
    pub rs2_val: Fp,
}

impl View for TraceRow {
    type V = Seq<int>;

    /// The row's 13 column values, in column order.
    open spec fn view(&self) -> Seq<int> {
        seq![
            self.clk@,
            self.pc@,
            self.opcode@,
            self.rd@,
            self.rs1@,
            self.rs2@,
            self.imm@,
            self.r0@,
            self.r1@,
            self.r2@,
            self.r3@,
            self.rs1_val@,
            self.rs2_val@,
        ]
    }
}

/// The columns of a padding row after `prev`: clock `clk`, NOP, zero operands,
/// the same pc and registers, and both read values equal to r0.
pub open spec fn padding_spec(clk: int, prev: Seq<int>) -> Seq<int> {
    seq![fmod(clk), prev[1], 0, 0, 0, 0, 0, prev[7], prev[8], prev[9], prev[10], prev[7], prev[7]]
}

/// The views of the rows of a trace.
pub open spec fn rows_view(rows: Seq<TraceRow>) -> Seq<Seq<int>> {
    rows.map_values(|r: TraceRow| r@)
}

impl TraceRow {
    /// The row as an array of its columns, in column order.
    pub fn to_array(&self) -> (a: [Fp; NUM_COLUMNS])
        ensures
            a@.len() == NUM_COLUMNS,
            forall|i: int| 0 <= i < NUM_COLUMNS ==> (#[trigger] a@[i])@ == self@[i],
    {
        [
            self.clk,
            self.pc,
            self.opcode,
            self.rd,
            self.rs1,
            self.rs2,
            self.imm,
            self.r0,
            self.r1,
            self.r2,
            self.r3,
            self.rs1_val,
            self.rs2_val,
        ]
    }

    /// A NOP padding row that freezes the state of the previous row.
    pub fn padding(clk: u64, prev: &TraceRow) -> (r: TraceRow)
        ensures
            r@ == padding_spec(clk as int, prev@),
    {
        let r = TraceRow {
            clk: Fp::new(clk),
            pc: prev.pc,
            opcode: Fp::new(0),
            rd: Fp::zero(),
            rs1: Fp::zero(),
            rs2: Fp::zero(),
            imm: Fp::zero(),
            r0: prev.r0,
            r1: prev.r1,
            r2: prev.r2,
            r3: prev.r3,
            rs1_val: prev.r0,
            rs2_val: prev.r0,
        };
        proof {
            vstd::arithmetic::div_mod::lemma_small_mod(0, P as nat);
            assert(r@ =~= padding_spec(clk as int, prev@));
        }
        r
    }
}

/// The complete execution trace.
#[derive(Debug, Clone)]
pub struct ExecutionTrace {
    pub rows: Vec<TraceRow>,
    /// How many rows are real execution (before padding).
    pub real_len: usize,
}

impl ExecutionTrace {
    pub fn new(rows: Vec<TraceRow>) -> (t: ExecutionTrace)
        ensures
            t.rows@ == rows@,
            t.real_len == rows.len(),
    {
        let real_len = rows.len();
        ExecutionTrace { rows, real_len }
    }

    /// Pad the trace with NOP rows (state frozen) up to the next power of two,
    /// and to at least two rows.
    pub fn pad_to_power_of_two(&mut self)
        requires
            old(self).rows.len() >= 1,
            old(self).rows.len() <= usize::MAX / 2,
        ensures
            final(self).real_len == old(self).real_len,
            is_pow2(final(self).rows.len() as int),
            final(self).rows.len() >= 2,
            final(self).rows.len() >= old(self).rows.len(),
            final(self).rows.len() == 2 || final(self).rows.len() / 2 < old(self).rows.len(),
            forall|k: int| 0 <= k < old(self).rows.len() ==> #[trigger] final(self).rows@[k] == old(self).rows@[k],
            forall|k: int| old(self).rows.len() <= k < final(self).rows.len() ==> #[trigger] final(self).rows@[k]@ == padding_spec(
                k,
                old(self).rows@[old(self).rows.len() - 1]@,
            ),
    {
        let len0 = self.rows.len();
        let ghost last = self.rows@[len0 - 1]@;
        // The next power of two, and at least 2.
        let mut target: usize = 2;
        proof {
            vstd::arithmetic::power2::lemma_pow2_unfold(1);
            vstd::arithmetic::power2::lemma2_to64();
            reveal(is_pow2);
            assert(is_pow2(1));
            assert(is_pow2(2));
        }
        while target < len0
            invariant
                2 <= target,
                target <= 2 * len0 || target == 2,
                target / 2 < len0 || target == 2,
                len0 <= usize::MAX / 2,
                is_pow2(target as int),
            decreases 2 * len0 - target,
        {
            proof {
                reveal(is_pow2);
                assert((target * 2) / 2 == target);
                assert((target * 2) % 2 == 0);
            }
            target = target * 2;
        }
        while self.rows.len() < target
            invariant
                len0 <= self.rows.len() <= target,
                self.real_len == old(self).real_len,
                forall|k: int| 0 <= k < len0 ==> #[trigger] self.rows@[k] == old(self).rows@[k],
                forall|k: int| len0 <= k < self.rows.len() ==> #[trigger] self.rows@[k]@ == padding_spec(k, last),
                len0 == old(self).rows.len(),
                len0 >= 1,
                last == old(self).rows@[len0 - 1]@,
            decreases target - self.rows.len(),
        {
            let clk = self.rows.len() as u64;
            let n = self.rows.len();
            let prev = self.rows[n - 1];
            let row = TraceRow::padding(clk, &prev);
            proof {
                if n > len0 {
                    assert(prev@ == padding_spec(n - 1, last));
                }
                assert(row@ =~= padding_spec(n as int, last));
            }
            self.rows.push(row);
        }
    }

    /// A single column as a vector of field elements.
    pub fn get_column(&self, col: usize) -> (r: Vec<Fp>)
        requires
            col < NUM_COLUMNS,
        ensures
            r.len() == self.rows.len(),
            forall|i: int| 0 <= i < r.len() ==> (#[trigger] r[i])@ == self.rows@[i]@[col as int],
    {
        let mut r: Vec<Fp> = Vec::new();
        let mut i: usize = 0;
        while i < self.rows.len()
            invariant
                col < NUM_COLUMNS,
                i <= self.rows.len(),
                r.len() == i,
                forall|k: int| 0 <= k < i ==> (#[trigger] r[k])@ == self.rows@[k]@[col as int],
            decreases self.rows.len() - i,
        {
            let a = self.rows[i].to_array();
            r.push(a[col]);
            i += 1;
        }
        r
    }

    /// Total number of rows, padding included.
    pub fn len(&self) -> (r: usize)
        ensures
            r == self.rows.len(),
    {
        self.rows.len()
    }
}

} // verus!
