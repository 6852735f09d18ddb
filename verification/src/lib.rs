//! Accounting of the physical storage that two files share.
//!
//! A file occupies a list of physical byte ranges on its storage device.
//! Where two files were cloned or deduplicated, some of those ranges are the
//! same storage. Given the extent lists of two files, the library counts the
//! bytes that only the first file occupies, the bytes that only the second
//! occupies, and the bytes that both occupy.
//!
//! - [`range`]: byte ranges, and what makes a sequence of them an extent list.
//! - [`coverage`]: the set of offsets that ranges cover; the counts are
//!   defined as sizes of such sets.
//! - [`extent_list`]: from the extents that a file system reports to a sorted
//!   and checked [`ExtentList`].
//! - [`overlap`]: [`measure_overlap`], the sweep over two extent lists.
//! - [`laws`]: what holds of the counts of any two lists.
//! - [`report`]: the counts as three lines of text.

pub mod coverage;
pub mod extent_list;
pub mod laws;
pub mod overlap;
pub mod range;
pub mod report;

pub use extent_list::{sorted_physical_ranges, Extent, ExtentList};
pub use overlap::{measure_overlap, Overlap};
pub use range::ByteRange;
pub use report::{summarize, summary_lines};
