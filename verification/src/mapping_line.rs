use vstd::prelude::*;

use crate::mapping::OriginalLocation;
use crate::ordered::{
    keyed_model, keyed_wf, lemma_keyed_insert, lemma_keyed_model, lemma_keyed_update, shift_keys,
    shift_model, shift_ok,
};
use crate::sourcemap_error::{SourceMapError, SourceMapErrorType};

verus! {

/// A column entry: a generated column paired with the original position (if
/// any) that the generated text at that column came from.
pub type ColumnEntry = (u32, Option<OriginalLocation>);

/// The ordered column map of one generated line.
#[derive(Clone, Debug)]
pub struct MappingLine {
    pub mappings: Vec<ColumnEntry>,
}

impl MappingLine {
    /// Entries are kept in strictly ascending column order.
    pub open spec fn wf(self) -> bool {
        keyed_wf(self.mappings@)
    }

    /// The line as a finite map from generated column to original position.
    pub open spec fn model(self) -> Map<u32, Option<OriginalLocation>> {
        keyed_model(self.mappings@)
    }

    pub fn new() -> (r: MappingLine)
        ensures
            r.wf(),
            r.model() == Map::<u32, Option<OriginalLocation>>::empty(),
            r.mappings@.len() == 0,
    {
        MappingLine { mappings: Vec::new() }
    }

    /// Set the entry at `generated_column`, overwriting any entry already
    /// there; all other entries are untouched.
    pub fn add_mapping(&mut self, generated_column: u32, original: Option<OriginalLocation>)
        requires
            old(self).wf(),
        ensures
            final(self).wf(),
            final(self).model() == old(self).model().insert(generated_column, original),
            final(self).mappings@.len() >= 1,
    {
        let len = self.mappings.len();
        let mut i: usize = len;
        while i > 0 && self.mappings[i - 1].0 >= generated_column
            invariant
                i <= len,
                len == self.mappings@.len(),
                self.mappings@ == old(self).mappings@,
                forall|j: int| i <= j < len ==> self.mappings@[j].0 >= generated_column,
            decreases i,
        {
            i = i - 1;
        }
        // Entries before i are below the new column; entries from i on are at
        // or above it.
        assert(forall|j: int| 0 <= j < i ==> self.mappings@[j].0 < generated_column) by {
            if i > 0 {
                assert(self.mappings@[i - 1].0 < generated_column);
            }
        }
        if i < len && self.mappings[i].0 == generated_column {
            self.mappings.set(i, (generated_column, original));
            proof {
                lemma_keyed_update(
                    old(self).mappings@,
                    i as int,
                    (generated_column, original),
                );
            }
        } else {
            proof {
                if i < len {
                    assert(forall|j: int|
                        i < j < len ==> old(self).mappings@[j].0 > old(self).mappings@[i as int].0);
                }
            }
            self.mappings.insert(i, (generated_column, original));
            proof {
                lemma_keyed_insert(
                    old(self).mappings@,
                    i as int,
                    (generated_column, original),
                );
            }
        }
    }

    /// Shift every entry at or to the right of `generated_column` by
    /// `generated_column_offset`; entries the shifted block slides over are
    /// overwritten. Fails, changing nothing, exactly when a shifted column
    /// would leave the `u32` range.
    pub fn offset_columns(&mut self, generated_column: u32, generated_column_offset: i64) -> (r:
        Result<(), SourceMapError>)
        requires
            old(self).wf(),
        ensures
            final(self).wf(),
            r is Ok <==> shift_ok(
                old(self).model(),
                generated_column,
                generated_column_offset as int,
            ),
            r is Ok ==> final(self).model() == shift_model(
                old(self).model(),
                generated_column,
                generated_column_offset as int,
            ),
            r is Err ==> final(self).mappings@ == old(self).mappings@,
            r matches Err(e) ==> e.error_type == SourceMapErrorType::UnexpectedNegativeNumber,
            final(self).mappings@.len() <= old(self).mappings@.len(),
    {
        let ok = shift_keys(&mut self.mappings, generated_column, generated_column_offset);
        if ok {
            Ok(())
        } else {
            Err(SourceMapError::new(SourceMapErrorType::UnexpectedNegativeNumber, None))
        }
    }
}

} // verus!
