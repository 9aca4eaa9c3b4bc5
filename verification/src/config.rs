//! Settings of writers and readers.
use crate::errors::{outcome, CompactError, ErrorModel, HeaderFault, HeaderModel, Result};
use crate::quant::{DistanceMetric, QuantType};
use crate::text::{decimal, push_decimal};
use vstd::prelude::*;

verus! {

/// Default major version of new files.
pub const VERSION_MAJOR: u16 = 1;

/// Default minor version of new files.
pub const VERSION_MINOR: u16 = 0;

/// Settings shared by writers and readers.
#[derive(Debug, Clone, Copy, PartialEq, Eq, Structural)]
pub struct CompactConfig {
    pub dims: usize,
    pub quant_type: QuantType,
    pub distance: DistanceMetric,
    pub major: u16,
    pub minor: u16,
    pub align_disk_blocks: bool,
    pub verify_on_open: bool,
}

/// What is wrong with a dimensionality, if anything.
pub open spec fn dims_fault(dims: usize) -> Option<ErrorModel> {
    if dims == 0 {
        Some(ErrorModel::InvalidHeader(HeaderModel::Text("dims must be > 0"@)))
    } else if dims > 65535 {
        Some(
            ErrorModel::InvalidHeader(
                HeaderModel::Text("dims "@ + decimal(dims as nat) + " exceeds u16::MAX"@),
            ),
        )
    } else {
        None
    }
}

/// A configuration with defaults for everything but its first three fields.
pub open spec fn default_config(
    dims: usize,
    quant_type: QuantType,
    distance: DistanceMetric,
) -> CompactConfig {
    CompactConfig {
        dims,
        quant_type,
        distance,
        major: VERSION_MAJOR,
        minor: VERSION_MINOR,
        align_disk_blocks: false,
        verify_on_open: true,
    }
}

/// The configuration, unless its dimensionality is at fault.
pub open spec fn checked(c: CompactConfig) -> std::result::Result<CompactConfig, ErrorModel> {
    match dims_fault(c.dims) {
        Some(e) => Err(e),
        None => Ok(c),
    }
}

impl CompactConfig {
    /// A configuration with the default version, no padding, and verification on open.
    pub fn new(dims: usize, quant_type: QuantType, distance: DistanceMetric) -> (r: Result<
        CompactConfig,
    >)
        ensures
            outcome(r) == checked(default_config(dims, quant_type, distance)),
    {
        CompactConfig::builder(dims, quant_type, distance).build()
    }

    /// A builder that starts from the defaults.
    pub fn builder(dims: usize, quant_type: QuantType, distance: DistanceMetric) -> (b:
        ConfigBuilder)
        ensures
            b@ == default_config(dims, quant_type, distance),
    {
        ConfigBuilder {
            config: CompactConfig {
                dims,
                quant_type,
                distance,
                major: VERSION_MAJOR,
                minor: VERSION_MINOR,
                align_disk_blocks: false,
                verify_on_open: true,
            },
        }
    }

    /// Check that the dimensionality is between one and 65535.
    pub fn validate(&self) -> (r: Result<()>)
        ensures
            outcome(r) == (match dims_fault(self.dims) {
                Some(e) => Err(e),
                None => Ok(()),
            }),
    {
        if self.dims == 0 {
            return Err(CompactError::invalid_header("dims must be > 0"));
        }
        if self.dims > 65535 {
            let mut s: String = "dims ".to_owned();
            push_decimal(&mut s, self.dims as u64);
            s.append(" exceeds u16::MAX");
            return Err(CompactError::InvalidHeader(HeaderFault::Text(s)));
        }
        Ok(())
    }

    /// The dimensionality as the header stores it.
    pub fn header_dims_u16(&self) -> (r: Result<u16>)
        ensures
            match dims_fault(self.dims) {
                Some(e) => outcome(r) == Err::<u16, ErrorModel>(e),
                None => r is Ok && r->Ok_0 == self.dims,
            },
    {
        match self.validate() {
            Ok(()) => Ok(self.dims as u16),
            Err(e) => Err(e),
        }
    }
}

/// Builder of a [`CompactConfig`]; only `build` can fail. Its view is the configuration so far.
#[derive(Debug, Clone, Copy)]
pub struct ConfigBuilder {
    config: CompactConfig,
}

impl View for ConfigBuilder {
    type V = CompactConfig;

    closed spec fn view(&self) -> CompactConfig {
        self.config
    }
}

impl ConfigBuilder {
    /// Set the version.
    pub fn version(self, major: u16, minor: u16) -> (r: ConfigBuilder)
        ensures
            r@ == (CompactConfig { major, minor, ..self@ }),
    {
        ConfigBuilder { config: CompactConfig { major, minor, ..self.config } }
    }

    /// Set whether the footer starts at a disk block.
    pub fn align_disk_blocks(self, align: bool) -> (r: ConfigBuilder)
        ensures
            r@ == (CompactConfig { align_disk_blocks: align, ..self@ }),
    {
        ConfigBuilder { config: CompactConfig { align_disk_blocks: align, ..self.config } }
    }

    /// Set whether opening verifies the checksum.
    pub fn verify_on_open(self, verify: bool) -> (r: ConfigBuilder)
        ensures
            r@ == (CompactConfig { verify_on_open: verify, ..self@ }),
    {
        ConfigBuilder { config: CompactConfig { verify_on_open: verify, ..self.config } }
    }

    /// Set the quantization.
    pub fn quant_type(self, q: QuantType) -> (r: ConfigBuilder)
        ensures
            r@ == (CompactConfig { quant_type: q, ..self@ }),
    {
        ConfigBuilder { config: CompactConfig { quant_type: q, ..self.config } }
    }

    /// Set the distance metric.
    pub fn distance(self, d: DistanceMetric) -> (r: ConfigBuilder)
        ensures
            r@ == (CompactConfig { distance: d, ..self@ }),
    {
        ConfigBuilder { config: CompactConfig { distance: d, ..self.config } }
    }

    /// The configuration, if its dimensionality is acceptable.
    pub fn build(self) -> (r: Result<CompactConfig>)
        ensures
            outcome(r) == checked(self@),
    {
        match self.config.validate() {
            Ok(()) => Ok(self.config),
            Err(e) => Err(e),
        }
    }
}

/// Settings of a writer.
#[derive(Debug, Clone, Copy)]
pub struct WriterConfig {
    pub base: CompactConfig,
    /// Whether finalizing pads to the next disk block before the footer.
    pub pad_to_block: bool,
    /// Number of vectors to buffer in batched appends.
    pub batch_capacity: usize,
}

impl WriterConfig {
    /// Writer settings that follow the alignment of `base`.
    pub fn from_base(base: CompactConfig) -> (r: WriterConfig)
        ensures
            r == (WriterConfig { base, pad_to_block: base.align_disk_blocks, batch_capacity: 1024 }),
    {
        WriterConfig { base, pad_to_block: base.align_disk_blocks, batch_capacity: 1024 }
    }

    /// Set whether to pad before the footer.
    pub fn pad_to_block(self, pad: bool) -> (r: WriterConfig)
        ensures
            r == (WriterConfig { pad_to_block: pad, ..self }),
    {
        WriterConfig { pad_to_block: pad, ..self }
    }

    /// Set the number of vectors to buffer, at least one.
    pub fn batch_capacity(self, cap: usize) -> (r: WriterConfig)
        ensures
            r == (WriterConfig {
                batch_capacity: if cap == 0 {
                    1
                } else {
                    cap
                },
                ..self
            }),
    {
        WriterConfig {
            batch_capacity: if cap == 0 {
                1
            } else {
                cap
            },
            ..self
        }
    }
}

/// Settings of a reader.
#[derive(Debug, Clone, Copy)]
pub struct ReaderConfig {
    pub verify_checksum: bool,
    pub prefetch_blocks: usize,
}

impl Default for ReaderConfig {
    fn default() -> (r: ReaderConfig)
        ensures
            r == (ReaderConfig { verify_checksum: true, prefetch_blocks: 0 }),
    {
        ReaderConfig { verify_checksum: true, prefetch_blocks: 0 }
    }
}

impl ReaderConfig {
    /// Do not verify the checksum on open.
    pub fn without_verification(self) -> (r: ReaderConfig)
        ensures
            r == (ReaderConfig { verify_checksum: false, ..self }),
    {
        ReaderConfig { verify_checksum: false, ..self }
    }

    /// Set the number of blocks to prefetch.
    pub fn with_prefetch(self, blocks: usize) -> (r: ReaderConfig)
        ensures
            r == (ReaderConfig { prefetch_blocks: blocks, ..self }),
    {
        ReaderConfig { prefetch_blocks: blocks, ..self }
    }
}

} // verus!
