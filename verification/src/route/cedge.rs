//! The configurable parts of the edges of the channeling graph.

use vstd::prelude::*;
use vstd::arithmetic::power2::pow2;
use crate::error::EvalError;
use crate::ptr::{PCNode, PConfig};

verus! {

/// One configurable bit: bit `bit_i` of the configuration `p_config`.
#[derive(Clone, Copy, Debug, PartialEq, Eq, Structural)]
pub struct ConfigBit {
    p_config: PConfig,
    bit_i: usize,
}

impl ConfigBit {
    /// The configuration the bit belongs to.
    pub closed spec fn config(&self) -> PConfig {
        self.p_config
    }

    /// The place of the bit in its configuration.
    pub closed spec fn index(&self) -> usize {
        self.bit_i
    }

    /// Bit `bit_i` of the configuration `p_config`.
    pub fn new(p_config: PConfig, bit_i: usize) -> (r: Self)
        ensures
            r.config() == p_config,
            r.index() == bit_i,
    {
        ConfigBit { p_config, bit_i }
    }
}

/// The selector can use its configuration bits to arbitrarily select from any
/// of the `SelectorValues` in a power-of-two array.
#[derive(Clone, Debug)]
pub struct SelectorLut {
    inx_config: Vec<ConfigBit>,
}

impl SelectorLut {
    /// The configuration bits that make up the index.
    pub closed spec fn index_bits(&self) -> Seq<ConfigBit> {
        self.inx_config@
    }

    /// A selector indexed by the given configuration bits.
    pub fn new(inx_config: Vec<ConfigBit>) -> (r: Self)
        ensures
            r.index_bits() == inx_config@,
    {
        SelectorLut { inx_config }
    }

    pub fn inx_config(&self) -> (r: &[ConfigBit])
        ensures
            r@ == self.index_bits(),
    {
        self.inx_config.as_slice()
    }

    /// Checks that the index selects among exactly `sources_len` sources.
    pub fn verify_integrity(&self, sources_len: usize) -> (r: Result<(), EvalError>)
        requires
            self.index_bits().len() < usize::BITS,
        ensures
            r is Ok <==> pow2(self.index_bits().len()) == sources_len,
            r matches Err(e) ==> e is OtherStr,
    {
        proof {
            vstd::bits::lemma_usize_pow2_no_overflow(self.inx_config@.len());
            vstd::bits::lemma_usize_shl_is_mul(1, self.inx_config@.len() as usize);
        }
        let pow_len = 1usize << self.inx_config.len();
        if pow_len != sources_len {
            return Err(EvalError::OtherStr("problem with `SelectorLut` validation"));
        }
        Ok(())
    }
}

/// The arbitrary can use its configuration bits to change into any LUT.
#[derive(Clone, Debug)]
pub struct ArbitraryLut {
    lut_config: Vec<ConfigBit>,
}

impl ArbitraryLut {
    /// The configuration bits that make up the table.
    pub closed spec fn table_bits(&self) -> Seq<ConfigBit> {
        self.lut_config@
    }

    /// A table made of the given configuration bits.
    pub fn new(lut_config: Vec<ConfigBit>) -> (r: Self)
        ensures
            r.table_bits() == lut_config@,
    {
        ArbitraryLut { lut_config }
    }

    pub fn lut_config(&self) -> (r: &[ConfigBit])
        ensures
            r@ == self.table_bits(),
    {
        self.lut_config.as_slice()
    }

    /// Checks that the table has an entry for every value of `inx_len` index
    /// bits.
    pub fn verify_integrity(&self, inx_len: usize) -> (r: Result<(), EvalError>)
        requires
            inx_len < usize::BITS,
        ensures
            r is Ok <==> self.table_bits().len() == pow2(inx_len as nat),
            r matches Err(e) ==> e is OtherStr,
    {
        proof {
            vstd::bits::lemma_usize_pow2_no_overflow(inx_len as nat);
            vstd::bits::lemma_usize_shl_is_mul(1, inx_len);
        }
        let pow_len = 1usize << inx_len;
        if self.lut_config.len() != pow_len {
            return Err(EvalError::OtherStr("problem with `ArbitraryLut` validation"));
        }
        Ok(())
    }
}

/// Used by higher order edges to tell what it is capable of overall
#[derive(Clone, Debug)]
pub struct BulkProperties {
    /// The number of bits that can enter this channel's sources
    pub channel_entry_widths: Vec<usize>,
    /// The number of bits that can exit this channel
    pub channel_exit_widths: Vec<usize>,
    pub lut_bits: usize,
    /// this counts the total number of `lvl == 0` subnodes
    pub base_subnodes: usize,
}

impl BulkProperties {
    pub fn new(base_subnodes: usize, lut_bits: usize) -> (r: Self)
        ensures
            r.channel_entry_widths@.len() == 0,
            r.channel_exit_widths@.len() == 0,
            r.lut_bits == lut_bits,
            r.base_subnodes == base_subnodes,
    {
        BulkProperties {
            channel_entry_widths: Vec::new(),
            channel_exit_widths: Vec::new(),
            lut_bits,
            base_subnodes,
        }
    }
}

/// The source end of a channel edge.
#[derive(Clone, Copy, Debug, PartialEq, Eq, Structural, PartialOrd, Ord)]
pub struct Source {
    pub p_cnode: PCNode,
}

/// The sink end of a channel edge.
#[derive(Clone, Copy, Debug, PartialEq, Eq, Structural, PartialOrd, Ord)]
pub struct Sink {
    pub p_cnode: PCNode,
    /// The weight needs to be at least 1 to prevent the algorithm from doing
    /// very bad routes
    pub delay_weight: u32,
}

impl Sink {
    /// The delay weight is at least 1.
    pub open spec fn wf(&self) -> bool {
        self.delay_weight >= 1
    }

    /// A sink at `p_cnode` with the given weight, `None` if the weight is
    /// zero.
    pub fn new(p_cnode: PCNode, delay_weight: u32) -> (r: Option<Self>)
        ensures
            delay_weight == 0 <==> r is None,
            r matches Some(s) ==> s.wf() && s.p_cnode == p_cnode && s.delay_weight == delay_weight,
    {
        if delay_weight == 0 {
            None
        } else {
            Some(Sink { p_cnode, delay_weight })
        }
    }
}

} // verus!
