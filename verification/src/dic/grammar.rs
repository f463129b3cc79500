//! The connection cost table.

use vstd::prelude::*;

use crate::dic::bytes::le16;
use crate::dic::bytes::read_cost;
use crate::dic::bytes::read_u16;
use crate::error::EngineError;

verus! {

/// The pretrained connection cost table: `cost(r, c)` is the cost of placing
/// a word whose right connection id is `r` immediately before a word whose
/// left connection id is `c`.
pub struct Grammar {
    /// Number of distinct right connection ids the table covers.
    pub rows: u16,
    /// Number of distinct left connection ids the table covers.
    pub cols: u16,
    /// The cost matrix, row-major: `costs[r * cols + c]`.
    pub costs: Vec<i32>,
    /// Number of dictionary bytes the encoded table occupies; the lexicon
    /// region starts this many bytes after the table's own offset.
    pub storage_size: usize,
}

/// The number of rows the table encoded at `off` declares.
pub open spec fn spec_rows(b: Seq<u8>, off: int) -> int {
    le16(b, off)
}

/// The number of columns the table encoded at `off` declares.
pub open spec fn spec_cols(b: Seq<u8>, off: int) -> int {
    le16(b, off + 2)
}

/// Number of bytes the table encoded at `off` occupies.
pub open spec fn spec_grammar_size(b: Seq<u8>, off: int) -> int {
    4 + 2 * (spec_rows(b, off) * spec_cols(b, off))
}

/// The cost at flat index `k` of the table encoded at `off`.
pub open spec fn spec_grammar_cost(b: Seq<u8>, off: int, k: int) -> int {
    le16(b, off + 4 + 2 * k) - 32768
}

/// A well-formed encoded table: the four size bytes are in range, both
/// dimensions are at least one (the synthetic sentence boundary nodes carry
/// connection id zero, which the table must cover), and the whole matrix
/// lies inside the buffer.
pub open spec fn grammar_region_ok(b: Seq<u8>, off: int) -> bool {
    &&& 0 <= off
    &&& off + 4 <= b.len()
    &&& spec_rows(b, off) >= 1
    &&& spec_cols(b, off) >= 1
    &&& off + spec_grammar_size(b, off) <= b.len()
}

impl Grammar {
    /// The parsed table is internally consistent.
    pub open spec fn wf(self) -> bool {
        &&& self.rows >= 1
        &&& self.cols >= 1
        &&& self.costs@.len() == self.rows * self.cols
        &&& forall|k: int|
            0 <= k < self.costs@.len() ==> -32768 <= #[trigger] self.costs@[k] <= 32767
    }

    /// The connection cost from right id `r` to left id `c`.
    pub open spec fn spec_cost(self, r: int, c: int) -> int {
        self.costs@[r * self.cols + c] as int
    }

    /// The parsed table equals the one encoded at `off` in `b`.
    pub open spec fn parsed_from(self, b: Seq<u8>, off: int) -> bool {
        &&& self.rows == spec_rows(b, off)
        &&& self.cols == spec_cols(b, off)
        &&& self.storage_size == spec_grammar_size(b, off)
        &&& forall|k: int|
            0 <= k < self.costs@.len() ==> #[trigger] self.costs@[k] == spec_grammar_cost(
                b,
                off,
                k,
            )
    }

    /// Parse the connection cost table that starts at byte offset `off`.
    ///
    /// Returns `Ok` exactly when the encoded region is well formed.
    pub fn parse(b: &[u8], off: usize) -> (r: Result<Grammar, EngineError>)
        ensures
            r is Ok <==> grammar_region_ok(b@, off as int),
            r is Err ==> r == Err::<Grammar, EngineError>(EngineError::DictionaryFormat),
            r is Ok ==> r->Ok_0.wf() && r->Ok_0.parsed_from(b@, off as int),
    {
        if b.len() < 4 || off > b.len() - 4 {
            return Err(EngineError::DictionaryFormat);
        }
        let rows = read_u16(b, off);
        let cols = read_u16(b, off + 2);
        if rows == 0 || cols == 0 {
            return Err(EngineError::DictionaryFormat);
        }
        assert(rows as int * cols as int <= 65535 * 65535) by (nonlinear_arith)
            requires
                rows <= 65535,
                cols <= 65535,
        ;
        let need: u64 = 4u64 + 2u64 * ((rows as u64) * (cols as u64));
        if need > (b.len() - off) as u64 {
            return Err(EngineError::DictionaryFormat);
        }
        let storage_size: usize = need as usize;
        let n: usize = (rows as usize) * (cols as usize);
        let blen = b.len();
        let mut costs: Vec<i32> = Vec::new();
        for k in 0..n
            invariant
                n == rows as int * cols as int,
                off + 4 + 2 * n <= blen,
                blen == b@.len(),
                costs@.len() == k,
                forall|j: int|
                    0 <= j < k ==> #[trigger] costs@[j] == spec_grammar_cost(b@, off as int, j)
                        && -32768 <= costs@[j] <= 32767,
        {
            let c = read_cost(b, off + 4 + 2 * k);
            costs.push(c);
        }
        Ok(Grammar { rows, cols, costs, storage_size })
    }

    /// Look the connection cost up.
    pub fn connect_cost(&self, r: u16, c: u16) -> (res: i32)
        requires
            self.wf(),
            r < self.rows,
            c < self.cols,
        ensures
            res == self.spec_cost(r as int, c as int),
            -32768 <= res <= 32767,
    {
        let ghost rows_g: int = self.rows as int;
        let ghost cols_g: int = self.cols as int;
        assert((r as int) * cols_g + (c as int) < rows_g * cols_g && 0 <= (r as int) * cols_g)
            by (nonlinear_arith)
            requires
                0 <= r < rows_g,
                0 <= c < cols_g,
        ;
        let _n_costs: usize = self.costs.len();
        self.costs[(r as usize) * (self.cols as usize) + (c as usize)]
    }
}

} // verus!
