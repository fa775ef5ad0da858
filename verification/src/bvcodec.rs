//! The code-choice table of the compressed graph format: each syntactic
//! element of a node's encoding is read with a configurable universal code,
//! fixed when the graph is opened.

use vstd::prelude::*;
use crate::Error;
use crate::bits::{BitOrder, spec_unary, UnbufferedBitStreamRead};
use crate::codes::{spec_gamma, spec_delta, spec_zeta};

verus! {

/// A universal code usable for a syntactic element.
#[derive(Clone, Copy, Debug, PartialEq, Eq, Structural)]
pub enum Code {
    Unary,
    Gamma,
    Delta,
    Zeta { k: u64 },
}

impl Code {
    /// The shrinking parameter of a zeta code stays in its documented range.
    pub open spec fn wf(self) -> bool {
        match self {
            Code::Zeta { k } => 1 <= k <= 7,
            _ => true,
        }
    }
}

/// Reading one value of the given code at `pos`.
pub open spec fn spec_code(ws: Seq<u64>, order: BitOrder, pos: int, c: Code) -> Option<(nat, int)> {
    match c {
        Code::Unary => spec_unary(ws, order, pos),
        Code::Gamma => spec_gamma(ws, order, pos),
        Code::Delta => spec_delta(ws, order, pos),
        Code::Zeta { k } => spec_zeta(ws, order, pos, k as int),
    }
}

/// The code chosen for each syntactic element of a node's encoding.
#[derive(Clone, Copy, Debug, PartialEq, Eq, Structural)]
pub struct CompFlags {
    pub outdegree: Code,
    pub reference_offset: Code,
    pub block_count: Code,
    pub blocks: Code,
    pub interval_count: Code,
    pub interval_start: Code,
    pub interval_len: Code,
    pub first_residual: Code,
    pub residual: Code,
}

impl CompFlags {
    /// Every chosen code is well formed.
    pub open spec fn wf(self) -> bool {
        &&& self.outdegree.wf()
        &&& self.reference_offset.wf()
        &&& self.block_count.wf()
        &&& self.blocks.wf()
        &&& self.interval_count.wf()
        &&& self.interval_start.wf()
        &&& self.interval_len.wf()
        &&& self.first_residual.wf()
        &&& self.residual.wf()
    }

    /// The customary choice: gamma everywhere but the unary reference
    /// offset and the zeta-coded residuals.
    pub fn default_flags() -> (r: CompFlags)
        ensures
            r.wf(),
            r == (CompFlags {
                outdegree: Code::Gamma,
                reference_offset: Code::Unary,
                block_count: Code::Gamma,
                blocks: Code::Gamma,
                interval_count: Code::Gamma,
                interval_start: Code::Gamma,
                interval_len: Code::Gamma,
                first_residual: Code::Zeta { k: 3 },
                residual: Code::Zeta { k: 3 },
            }),
    {
        CompFlags {
            outdegree: Code::Gamma,
            reference_offset: Code::Unary,
            block_count: Code::Gamma,
            blocks: Code::Gamma,
            interval_count: Code::Gamma,
            interval_start: Code::Gamma,
            interval_len: Code::Gamma,
            first_residual: Code::Zeta { k: 3 },
            residual: Code::Zeta { k: 3 },
        }
    }

    /// The choice used by graphs that code every element with gamma.
    pub fn all_gamma() -> (r: CompFlags)
        ensures
            r.wf(),
            r == (CompFlags {
                outdegree: Code::Gamma,
                reference_offset: Code::Gamma,
                block_count: Code::Gamma,
                blocks: Code::Gamma,
                interval_count: Code::Gamma,
                interval_start: Code::Gamma,
                interval_len: Code::Gamma,
                first_residual: Code::Gamma,
                residual: Code::Gamma,
            }),
    {
        CompFlags {
            outdegree: Code::Gamma,
            reference_offset: Code::Gamma,
            block_count: Code::Gamma,
            blocks: Code::Gamma,
            interval_count: Code::Gamma,
            interval_start: Code::Gamma,
            interval_len: Code::Gamma,
            first_residual: Code::Gamma,
            residual: Code::Gamma,
        }
    }
}

impl UnbufferedBitStreamRead {
    /// Deliver and consume one value of the given code.
    pub fn read_code(&mut self, c: Code) -> (r: Result<u64, Error>)
        requires
            old(self).fits(),
            c.wf(),
        ensures
            final(self).spec_words() == old(self).spec_words(),
            final(self).spec_order() == old(self).spec_order(),
            match r {
                Ok(x) => spec_code(
                    old(self).spec_words(),
                    old(self).spec_order(),
                    old(self).spec_pos(),
                    c,
                ) == Some((x as nat, final(self).spec_pos())),
                Err(e) => {
                    &&& spec_code(
                        old(self).spec_words(),
                        old(self).spec_order(),
                        old(self).spec_pos(),
                        c,
                    ) is None
                    &&& final(self).spec_pos() == old(self).spec_pos()
                    &&& e == (if spec_unary(
                        old(self).spec_words(),
                        old(self).spec_order(),
                        old(self).spec_pos(),
                    ) is None {
                        Error::UnexpectedEof
                    } else {
                        Error::CorruptStream
                    })
                },
            },
    {
        match c {
            Code::Unary => self.read_unary(),
            Code::Gamma => self.read_gamma(),
            Code::Delta => self.read_delta(),
            Code::Zeta { k } => self.read_zeta(k),
        }
    }
}

} // verus!
