//! What is known of a model before it is proved.
use crate::number::Element;
use crate::shape::Shape;
use vstd::prelude::*;

verus! {

/// The tables that values are looked up in.
#[derive(Debug, Clone, Copy, PartialEq, Eq, Structural)]
pub enum TableType {
    /// The values of a quantized number.
    Range,
}

/// The committed polynomials of a layer.
#[derive(Debug, Clone, Copy, PartialEq, Eq, Structural)]
pub enum PolyId {
    ConvFilter,
    ConvBias,
}

/// What is handed on from layer to layer while the context of a model is built.
#[derive(Debug)]
pub struct ContextAux {
    pub last_output_shape: Vec<Shape>,
    pub last_unpadded_output_shape: Vec<Shape>,
    pub model_polys: Option<Vec<(PolyId, Vec<Element>)>>,
    /// The lookup tables that the layers so far use.
    pub tables: Vec<TableType>,
    /// The length of the longest polynomial so far.
    pub max_poly_len: usize,
}

impl ContextAux {
    /// The table is used.
    pub fn use_table(&mut self, table: TableType)
        ensures
            final(self).tables@ == (if old(self).tables@.contains(table) {
                old(self).tables@
            } else {
                old(self).tables@.push(table)
            }),
            final(self).last_output_shape == old(self).last_output_shape,
            final(self).last_unpadded_output_shape == old(self).last_unpadded_output_shape,
            final(self).model_polys == old(self).model_polys,
            final(self).max_poly_len == old(self).max_poly_len,
    {
        let mut i: usize = 0;
        while i < self.tables.len()
            invariant
                i <= self.tables@.len(),
                *self == *old(self),
                forall|j: int| 0 <= j < i ==> self.tables@[j] != table,
            decreases self.tables@.len() - i,
        {
            if self.tables[i] == table {
                assert(self.tables@[i as int] == table);
                return ;
            }
            i = i + 1;
        }
        self.tables.push(table);
    }
}

} // verus!
