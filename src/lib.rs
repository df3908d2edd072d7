//! A two-dimensional array stored row by row in one flat buffer, with
//! rectangular views, strided row and column iteration, structural edits,
//! minimal-swap sorting and in-place wrap-around scrolling.
pub mod layout;
pub mod iter;
pub mod flattenexact;
pub mod ops;
pub mod view;
pub mod toodee;
pub mod translate;
pub mod copy;
pub mod transpose;
pub mod sort;
pub mod matrix;
mod slices;

pub use crate::copy::CopyOps;
pub use crate::flattenexact::{Cells, CellsMut, FlattenExact, FlattenExactMut};
pub use crate::iter::{Col, ColMut, Rows, RowsMut, TooDeeIterator};
pub use crate::matrix::Matrix;
pub use crate::ops::{Coordinate, TooDeeOps, TooDeeOpsMut};
pub use crate::sort::{build_swap_trace, SortOps};
pub use crate::toodee::{DrainCol, TooDee};
pub use crate::translate::TranslateOps;
pub use crate::transpose::TransposeOps;
pub use crate::view::{TooDeeView, TooDeeViewMut};
