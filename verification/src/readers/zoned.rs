//! A reader with statistics of its zones.
use vstd::prelude::*;
use std::ops::Range;
use std::sync::Arc;
use crate::apply::{accepts_expression, applied, rank};
use crate::display::{describe_zoned, DisplayTree};
use crate::dtype::DType;
use crate::error::VortexResult;
use crate::expr::{size, valid_expression, Expression};
use crate::layout::Layout;
use crate::reader::{layout_result, zoned_layout, Reader, ReaderRef, ReaderStreamRef};
use crate::stats::Stat;

verus! {

/// A reader of a layout that statistics are kept of, zone by zone.
pub struct ZonedReader {
    pub(crate) data: ReaderRef,
    pub(crate) zone_map: ReaderRef,
    pub(crate) zone_len: usize,
    pub(crate) present_stats: Arc<Vec<Stat>>,
}

impl View for ZonedReader {
    type V = Layout;

    open spec fn view(&self) -> Layout {
        zoned_layout(*self)
    }
}

impl ZonedReader {
    /// A reader of a layout and of statistics of its zones of `zone_len` rows.
    pub fn new(
        data: ReaderRef,
        zone_map: ReaderRef,
        zone_len: usize,
        present_stats: Arc<Vec<Stat>>,
    ) -> (result: ZonedReader)
        ensures
            result@ == (Layout::Zoned {
                data: Box::new(data@),
                zone_map: Box::new(zone_map@),
                zone_len,
                present_stats: present_stats@,
            }),
    {
        ZonedReader { data, zone_map, zone_len, present_stats }
    }
}

impl ZonedReader {
    /// A reader of an expression over the rows.
    pub(crate) fn with_expression(&self, expression: &Expression) -> (result: VortexResult<
        ReaderRef,
    >)
        requires
            accepts_expression(zoned_layout(*self)),
            valid_expression(expression@),
        ensures
            layout_result(result) == applied(zoned_layout(*self), expression@),
        decreases rank(zoned_layout(*self)), size(expression@), 1nat,
    {
        match self.data.with_expression(expression) {
            Ok(data) => Ok(
                ReaderRef::Zoned(
                    Arc::new(
                        ZonedReader {
                            data,
                            zone_map: self.zone_map.clone(),
                            zone_len: self.zone_len,
                            present_stats: Arc::clone(&self.present_stats),
                        },
                    ),
                ),
            ),
            Err(error) => Err(error),
        }
    }
}

impl Reader for ZonedReader {
    open spec fn layout(&self) -> Layout {
        zoned_layout(*self)
    }

    fn dtype(&self) -> &DType {
        self.data.row_dtype()
    }

    fn row_count(&self) -> u64 {
        self.data.count()
    }

    fn apply(&self, expression: &Expression) -> VortexResult<ReaderRef> {
        self.with_expression(expression)
    }

    fn execute(&self, row_range: Range<u64>) -> VortexResult<ReaderStreamRef> {
        self.data.open(row_range)
    }

    fn display_tree(&self) -> DisplayTree {
        describe_zoned(self)
    }
}

} // verus!
