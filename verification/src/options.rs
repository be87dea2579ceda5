//! Settings that shape a conversion run: how snippets are batched for
//! translation and the geometry of the pages that are laid out.

use vstd::prelude::*;

verus! {

/// Why a set of request options was refused.
#[derive(Clone, Copy, Debug, PartialEq, Eq, Structural)]
pub enum ConfigError {
    /// A batch must hold at least one snippet.
    ZeroBatchSize,
    /// At least one translation call must be allowed in flight.
    ZeroConcurrency,
}

/// How snippets are grouped and how many translation calls may run at once.
#[derive(Clone, Copy, Debug, PartialEq, Eq, Structural)]
pub struct RequestOptions {
    /// The largest number of snippets handed over in one translation call.
    pub batch_size: usize,
    /// The largest number of translation calls in flight at any moment.
    pub max_concurrency: usize,
}

/// The verdict on a pair of settings: `None` when both are usable, otherwise
/// the first fault, the batch size being looked at first.
pub open spec fn config_fault(batch_size: usize, max_concurrency: usize) -> Option<ConfigError> {
    if batch_size == 0 {
        Some(ConfigError::ZeroBatchSize)
    } else if max_concurrency == 0 {
        Some(ConfigError::ZeroConcurrency)
    } else {
        None
    }
}

impl RequestOptions {
    /// Both settings are at least one.
    pub open spec fn valid(&self) -> bool {
        self.batch_size > 0 && self.max_concurrency > 0
    }

    /// Builds the options, refusing a zero in either place.
    pub fn new(batch_size: usize, max_concurrency: usize) -> (made: Result<Self, ConfigError>)
        ensures
            match made {
                Ok(options) => {
                    &&& config_fault(batch_size, max_concurrency) is None
                    &&& options.batch_size == batch_size
                    &&& options.max_concurrency == max_concurrency
                    &&& options.valid()
                },
                Err(fault) => config_fault(batch_size, max_concurrency) == Some(fault),
            },
    {
        if batch_size == 0 {
            Err(ConfigError::ZeroBatchSize)
        } else if max_concurrency == 0 {
            Err(ConfigError::ZeroConcurrency)
        } else {
            Ok(RequestOptions { batch_size, max_concurrency })
        }
    }

    /// Checks options that were put together field by field.
    pub fn validate(&self) -> (checked: Result<(), ConfigError>)
        ensures
            match checked {
                Ok(_) => self.valid(),
                Err(fault) => config_fault(self.batch_size, self.max_concurrency) == Some(fault),
            },
    {
        if self.batch_size == 0 {
            Err(ConfigError::ZeroBatchSize)
        } else if self.max_concurrency == 0 {
            Err(ConfigError::ZeroConcurrency)
        } else {
            Ok(())
        }
    }
}

impl Default for RequestOptions {
    /// Ten snippets to a batch, five calls in flight.
    fn default() -> (options: Self)
        ensures
            options.batch_size == 10,
            options.max_concurrency == 5,
            options.valid(),
    {
        RequestOptions { batch_size: 10, max_concurrency: 5 }
    }
}

/// Page geometry, in whole points.
///
/// The vertical axis grows upwards: text starts at `max_y_pos` and moves down
/// towards `min_y_pos`.
#[derive(Clone, Copy, Debug, PartialEq, Eq, Structural)]
pub struct PdfOptions {
    /// The widest a line of text may be estimated to be.
    pub max_width: u32,
    /// The distance between the baselines of two lines.
    pub line_height: u32,
    /// The extra distance after a paragraph.
    pub paragraph_spacing: u32,
    /// The cursor may not sink below this.
    pub min_y_pos: u32,
    /// Where the cursor stands on a fresh page.
    pub max_y_pos: u32,
    /// The widest an image is drawn.
    pub max_image_width: u32,
    /// The tallest an image is drawn.
    pub max_image_height: u32,
}

impl Default for PdfOptions {
    /// An A4 page with 50 point margins and 14 point lines.
    fn default() -> (options: Self)
        ensures
            options == (PdfOptions {
                max_width: 500,
                line_height: 14,
                paragraph_spacing: 20,
                min_y_pos: 50,
                max_y_pos: 750,
                max_image_width: 500,
                max_image_height: 700,
            }),
    {
        PdfOptions {
            max_width: 500,
            line_height: 14,
            paragraph_spacing: 20,
            min_y_pos: 50,
            max_y_pos: 750,
            max_image_width: 500,
            max_image_height: 700,
        }
    }
}

} // verus!
