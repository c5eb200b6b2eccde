pub mod codec;
pub mod laws;
pub mod mapping;
pub mod mapping_line;
pub mod ordered;
pub mod sourcemap_error;
pub mod table;
pub mod vlq;

use vstd::prelude::*;

use crate::mapping::{Mapping, OriginalLocation};
use crate::mapping_line::{ColumnEntry, MappingLine};
use crate::ordered::{
    keyed_model, keyed_wf, landed, lemma_keyed_insert, lemma_keyed_model, lemma_keyed_remove,
    lemma_keyed_update, merge_shift_keys, shift_merge_model, shift_model, shift_ok,
};
use crate::codec::{
    apply_mappings, at_separator, fresh_parse_state, lemma_apply_mappings_snoc, line_tail,
    lines_tail, mapping_insert, parse_segment, parse_tail, repeat_byte, segment_bytes,
    segment_state, serialized, ParseOut, ParseState, SegOut, WriteState,
};
use crate::sourcemap_error::{SourceMapError, SourceMapErrorType};
use crate::vlq::{encode, read_relative, COMMA, SEMICOLON};
use crate::table::{
    lemma_table_add_all_snoc, lemma_table_indexes_len, table_add, table_add_all, table_index,
    table_indexes, table_register,
};

verus! {

/// A line entry: a generated line paired with its ordered column map.
pub type LineEntry = (u32, MappingLine);

/// Lines are strictly ascending, every line is well formed, and no stored
/// line is empty.
pub open spec fn lines_wf(s: Seq<LineEntry>) -> bool {
    &&& keyed_wf(s)
    &&& forall|i: int| 0 <= i < s.len() ==> (#[trigger] s[i].1).wf()
    &&& forall|i: int| 0 <= i < s.len() ==> (#[trigger] s[i].1).mappings@.len() > 0
}

/// The two-level index that a line sequence represents: a map from generated
/// line to that line's column map.
pub open spec fn lines_model(s: Seq<LineEntry>) -> Map<u32, Map<u32, Option<OriginalLocation>>> {
    Map::new(
        |k: u32| keyed_model(s).dom().contains(k),
        |k: u32| keyed_model(s)[k].model(),
    )
}

/// Sliding the line entries of a well-formed sequence onto each other
/// slides the two-level model the same way, and keeps every line well
/// formed and non-empty.
proof fn lemma_lines_merge_shift(s: Seq<LineEntry>, t: Seq<LineEntry>, pivot: u32, off: int)
    requires
        lines_wf(s),
        keyed_wf(t),
        keyed_model(t) == shift_merge_model(keyed_model(s), pivot, off),
        forall|q: int|
            0 <= q < t.len() ==> exists|p: int|
                0 <= p < s.len() && (#[trigger] t[q]).1 == s[p].1,
    ensures
        lines_wf(t),
        lines_model(t) == shift_merge_model(lines_model(s), pivot, off),
{
    let km_s = keyed_model(s);
    lemma_keyed_model(s);
    lemma_keyed_model(t);
    assert(lines_wf(t)) by {
        assert forall|q: int|
            0 <= q < t.len() implies (#[trigger] t[q]).1.wf() && t[q].1.mappings@.len() > 0 by {
            let p = choose|p: int| 0 <= p < s.len() && t[q].1 == s[p].1;
            assert(s[p].1.wf() && s[p].1.mappings@.len() > 0);
        }
    }
    assert(lines_model(t) =~= shift_merge_model(lines_model(s), pivot, off)) by {
        assert(forall|k: u32|
            km_s.dom().contains(k) <==> #[trigger] lines_model(s).dom().contains(k));
        assert forall|k: u32|
            #[trigger] landed(lines_model(s), pivot, off, k) <==> landed(km_s, pivot, off, k) by {
        }
        assert forall|k: u32|
            #[trigger] lines_model(t).dom().contains(k) <==> shift_merge_model(
                lines_model(s),
                pivot,
                off,
            ).dom().contains(k) by {
            assert(lines_model(t).dom().contains(k) <==> keyed_model(t).dom().contains(k));
        }
        assert forall|k: u32| #[trigger] lines_model(t).dom().contains(k) implies lines_model(t)[k]
            == shift_merge_model(lines_model(s), pivot, off)[k] by {
            assert(lines_model(t)[k] == keyed_model(t)[k].model());
            if landed(km_s, pivot, off, k) {
                assert(keyed_model(t)[k] == km_s[(k - off) as u32]);
                assert(shift_merge_model(lines_model(s), pivot, off)[k] == lines_model(s)[(k
                    - off) as u32]);
            } else {
                assert(keyed_model(t)[k] == km_s[k]);
            }
        }
    }
}

/// The two-level model and the entry model share their domain, so a shift is
/// possible for one exactly when it is possible for the other.
proof fn lemma_lines_shift_ok(s: Seq<LineEntry>, pivot: u32, off: int)
    ensures
        shift_ok(keyed_model(s), pivot, off) == shift_ok(lines_model(s), pivot, off),
{
    assert(forall|k: u32|
        keyed_model(s).dom().contains(k) <==> #[trigger] lines_model(s).dom().contains(k));
    if shift_ok(keyed_model(s), pivot, off) {
        assert forall|k: u32| lines_model(s).dom().contains(k) && k >= pivot implies 0 <= k + off
            && k + off <= u32::MAX by {
            assert(keyed_model(s).dom().contains(k));
        }
    }
    if shift_ok(lines_model(s), pivot, off) {
        assert forall|k: u32| keyed_model(s).dom().contains(k) && k >= pivot implies 0 <= k + off
            && k + off <= u32::MAX by {
            assert(lines_model(s).dom().contains(k));
        }
    }
}

/// Emit one segment: the optional comma, then the VLQ deltas of one
/// mapping against the running counters; returns the counters after it.
fn write_segment(
    output: &mut Vec<u8>,
    e: ColumnEntry,
    first: bool,
    previous_generated_column: u32,
    previous_source: u32,
    previous_original_line: u32,
    previous_original_column: u32,
    previous_name: u32,
) -> (r: (u32, u32, u32, u32))
    ensures
        final(output)@ == old(output)@ + (if first {
            Seq::<u8>::empty()
        } else {
            seq![COMMA]
        }) + segment_bytes(
            e.0,
            e.1,
            previous_generated_column as int,
            WriteState {
                source: previous_source as int,
                original_line: previous_original_line as int,
                original_column: previous_original_column as int,
                name: previous_name as int,
            },
        ),
        (WriteState {
            source: r.0 as int,
            original_line: r.1 as int,
            original_column: r.2 as int,
            name: r.3 as int,
        }) == segment_state(
            e.1,
            WriteState {
                source: previous_source as int,
                original_line: previous_original_line as int,
                original_column: previous_original_column as int,
                name: previous_name as int,
            },
        ),
{
    let mut source = previous_source;
    let mut original_line = previous_original_line;
    let mut original_column = previous_original_column;
    let mut name = previous_name;
    if !first {
        output.push(COMMA);
    }
    encode((e.0 as i64) - (previous_generated_column as i64), output);
    match e.1 {
        None => {},
        Some(o) => {
            encode((o.source as i64) - (source as i64), output);
            source = o.source;
            encode((o.original_line as i64) - (original_line as i64), output);
            original_line = o.original_line;
            encode((o.original_column as i64) - (original_column as i64), output);
            original_column = o.original_column;
            match o.name {
                None => {},
                Some(nm) => {
                    encode((nm as i64) - (name as i64), output);
                    name = nm;
                },
            }
        },
    }
    proof {
        assert(output@ =~= old(output)@ + (if first {
            Seq::<u8>::empty()
        } else {
            seq![COMMA]
        }) + segment_bytes(
            e.0,
            e.1,
            previous_generated_column as int,
            WriteState {
                source: previous_source as int,
                original_line: previous_original_line as int,
                original_column: previous_original_column as int,
                name: previous_name as int,
            },
        ));
    }
    (source, original_line, original_column, name)
}

/// The parser's counters and position after one segment.
struct SegCounters {
    generated_column: u32,
    source: u32,
    original_line: u32,
    original_column: u32,
    name: u32,
    pos: usize,
}

/// An in-memory source map: the string tables, the sparse source contents,
/// and the two-level ordered index of mappings.
pub struct SourceMap {
    pub sources: Vec<String>,
    pub sources_content: Vec<(u32, String)>,
    pub names: Vec<String>,
    pub mapping_lines: Vec<LineEntry>,
}

impl SourceMap {
    /// Well-formedness: the index is ordered on both levels with no empty
    /// lines, and every recorded source content belongs to a known source.
    pub open spec fn wf(self) -> bool {
        &&& lines_wf(self.mapping_lines@)
        &&& keyed_wf(self.sources_content@)
        &&& forall|i: int|
            0 <= i < self.sources_content@.len() ==> (#[trigger] self.sources_content@[i].0)
                < self.sources@.len()
    }

    /// The two-level index as a map from generated line to column map.
    pub open spec fn model(self) -> Map<u32, Map<u32, Option<OriginalLocation>>> {
        lines_model(self.mapping_lines@)
    }

    /// The column map stored at `line`, or the empty map if the line is
    /// absent.
    pub open spec fn line_model(self, line: u32) -> Map<u32, Option<OriginalLocation>> {
        if self.model().dom().contains(line) {
            self.model()[line]
        } else {
            Map::empty()
        }
    }

    /// The sparse source contents as a map from source index to text.
    pub open spec fn contents_model(self) -> Map<u32, Seq<char>> {
        Map::new(
            |k: u32| keyed_model(self.sources_content@).dom().contains(k),
            |k: u32| keyed_model(self.sources_content@)[k]@,
        )
    }

    pub fn new() -> (r: SourceMap)
        ensures
            r.wf(),
            r.sources@.len() == 0,
            r.sources_content@.len() == 0,
            r.names@.len() == 0,
            r.model() == Map::<u32, Map<u32, Option<OriginalLocation>>>::empty(),
    {
        let r = SourceMap {
            sources: Vec::new(),
            sources_content: Vec::new(),
            names: Vec::new(),
            mapping_lines: Vec::new(),
        };
        proof {
            assert(r.model() =~= Map::<u32, Map<u32, Option<OriginalLocation>>>::empty());
        }
        r
    }

    /// Insert one mapping: the entry at `mapping.generated_column` of the
    /// line at `mapping.generated_line` is set to `mapping.original`,
    /// overwriting any entry already there; all other lines and entries are
    /// untouched, and the string tables do not change.
    #[verifier::rlimit(50)]
    pub fn add_mapping(&mut self, mapping: Mapping)
        requires
            old(self).wf(),
        ensures
            final(self).wf(),
            final(self).model() == old(self).model().insert(
                mapping.generated_line,
                old(self).line_model(mapping.generated_line).insert(
                    mapping.generated_column,
                    mapping.original,
                ),
            ),
            final(self).sources == old(self).sources,
            final(self).sources_content == old(self).sources_content,
            final(self).names == old(self).names,
    {
        let ghost s = old(self).mapping_lines@;
        let len = self.mapping_lines.len();
        let mut i: usize = len;
        while i > 0 && self.mapping_lines[i - 1].0 >= mapping.generated_line
            invariant
                i <= len,
                len == self.mapping_lines@.len(),
                self.mapping_lines@ == s,
                forall|j: int| i <= j < len ==> self.mapping_lines@[j].0 >= mapping.generated_line,
            decreases i,
        {
            i = i - 1;
        }
        assert(forall|j: int| 0 <= j < i ==> s[j].0 < mapping.generated_line) by {
            if i > 0 {
                assert(s[i - 1].0 < mapping.generated_line);
            }
        }
        if i < len && self.mapping_lines[i].0 == mapping.generated_line {
            let mut entry = self.mapping_lines.remove(i);
            entry.1.add_mapping(mapping.generated_column, mapping.original);
            self.mapping_lines.insert(i, entry);
            proof {
                let t = self.mapping_lines@;
                assert(t =~= s.update(i as int, t[i as int]));
                lemma_keyed_update(s, i as int, t[i as int]);
            }
        } else {
            proof {
                if i < len {
                    assert(forall|j: int| i < j < len ==> s[j].0 > s[i as int].0);
                }
            }
            let mut line = MappingLine::new();
            line.add_mapping(mapping.generated_column, mapping.original);
            self.mapping_lines.insert(i, (mapping.generated_line, line));
            proof {
                let t = self.mapping_lines@;
                lemma_keyed_insert(s, i as int, t[i as int]);
            }
        }
        proof {
            let t = self.mapping_lines@;
            lemma_keyed_model(s);
            lemma_keyed_model(t);
            let gl = mapping.generated_line;
            assert(keyed_model(t) == keyed_model(s).insert(gl, t[i as int].1));
            assert(self.model() =~= old(self).model().insert(
                gl,
                old(self).line_model(gl).insert(mapping.generated_column, mapping.original),
            ));
        }
    }

    /// Register a source path: the index of an equal path already in the
    /// `sources` table, or the index of the path appended at its end. The
    /// table only ever grows, so indices never change meaning.
    pub fn add_source(&mut self, source: String) -> (r: u32)
        requires
            old(self).wf(),
            old(self).sources@.len() < u32::MAX as usize,
        ensures
            final(self).wf(),
            final(self).sources.deep_view() == table_add(old(self).sources.deep_view(), source@),
            r as int == table_index(old(self).sources.deep_view(), source@),
            r < final(self).sources@.len(),
            final(self).sources.deep_view()[r as int] == source@,
            old(self).sources.deep_view().is_prefix_of(final(self).sources.deep_view()),
            final(self).sources_content == old(self).sources_content,
            final(self).names == old(self).names,
            final(self).mapping_lines == old(self).mapping_lines,
    {
        table_register(&mut self.sources, source)
    }

    /// Register an identifier name, exactly as `add_source` registers a path.
    pub fn add_name(&mut self, name: String) -> (r: u32)
        requires
            old(self).wf(),
            old(self).names@.len() < u32::MAX as usize,
        ensures
            final(self).wf(),
            final(self).names.deep_view() == table_add(old(self).names.deep_view(), name@),
            r as int == table_index(old(self).names.deep_view(), name@),
            r < final(self).names@.len(),
            final(self).names.deep_view()[r as int] == name@,
            old(self).names.deep_view().is_prefix_of(final(self).names.deep_view()),
            final(self).sources == old(self).sources,
            final(self).sources_content == old(self).sources_content,
            final(self).mapping_lines == old(self).mapping_lines,
    {
        table_register(&mut self.names, name)
    }

    /// Register a list of source paths in order; the returned list holds the
    /// index each path came to sit at.
    pub fn add_sources(&mut self, sources: Vec<String>) -> (r: Vec<u32>)
        requires
            old(self).wf(),
            old(self).sources@.len() + sources@.len() < u32::MAX as usize,
        ensures
            final(self).wf(),
            final(self).sources.deep_view() == table_add_all(
                old(self).sources.deep_view(),
                sources.deep_view(),
            ),
            r@.len() == sources@.len(),
            forall|i: int|
                0 <= i < r@.len() ==> r@[i] as int == table_indexes(
                    old(self).sources.deep_view(),
                    sources.deep_view(),
                )[i],
            old(self).sources.deep_view().is_prefix_of(final(self).sources.deep_view()),
            final(self).sources_content == old(self).sources_content,
            final(self).names == old(self).names,
            final(self).mapping_lines == old(self).mapping_lines,
    {
        let ghost t0 = old(self).sources.deep_view();
        let ghost xs = sources.deep_view();
        let mut r: Vec<u32> = Vec::new();
        let n = sources.len();
        let mut j: usize = 0;
        while j < n
            invariant
                j <= n,
                n == sources@.len(),
                xs == sources.deep_view(),
                self.wf(),
                t0.len() + n < u32::MAX as usize,
                self.sources.deep_view() == table_add_all(t0, xs.take(j as int)),
                self.sources@.len() <= t0.len() + j,
                t0.is_prefix_of(self.sources.deep_view()),
                r@.len() == j,
                forall|i: int|
                    0 <= i < j ==> r@[i] as int == table_indexes(t0, xs.take(j as int))[i],
                self.sources_content == old(self).sources_content,
                self.names == old(self).names,
                self.mapping_lines == old(self).mapping_lines,
            decreases n - j,
        {
            let ghost pre = self.sources.deep_view();
            proof {
                assert(xs.take(j + 1) =~= xs.take(j as int).push(xs[j as int]));
                lemma_table_add_all_snoc(t0, xs.take(j as int), xs[j as int]);
                lemma_table_indexes_len(t0, xs.take(j as int));
                lemma_table_indexes_len(t0, xs.take(j + 1));
            }
            let idx = self.add_source(sources[j].clone());
            r.push(idx);
            proof {
                assert(table_indexes(t0, xs.take(j + 1)) == table_indexes(
                    t0,
                    xs.take(j as int),
                ).push(table_index(pre, xs[j as int])));
                assert(forall|i: int|
                    0 <= i < j ==> table_indexes(t0, xs.take(j + 1))[i] == table_indexes(
                        t0,
                        xs.take(j as int),
                    )[i]);
                assert(t0.is_prefix_of(self.sources.deep_view())) by {
                    assert(forall|i: int|
                        0 <= i < t0.len() ==> pre[i] == self.sources.deep_view()[i]);
                    assert(t0 =~= self.sources.deep_view().take(t0.len() as int));
                }
            }
            j += 1;
        }
        proof {
            assert(xs.take(n as int) =~= xs);
        }
        r
    }

    /// Register a list of identifier names in order, as `add_sources` does
    /// for paths.
    pub fn add_names(&mut self, names: Vec<String>) -> (r: Vec<u32>)
        requires
            old(self).wf(),
            old(self).names@.len() + names@.len() < u32::MAX as usize,
        ensures
            final(self).wf(),
            final(self).names.deep_view() == table_add_all(
                old(self).names.deep_view(),
                names.deep_view(),
            ),
            r@.len() == names@.len(),
            forall|i: int|
                0 <= i < r@.len() ==> r@[i] as int == table_indexes(
                    old(self).names.deep_view(),
                    names.deep_view(),
                )[i],
            old(self).names.deep_view().is_prefix_of(final(self).names.deep_view()),
            final(self).sources == old(self).sources,
            final(self).sources_content == old(self).sources_content,
            final(self).mapping_lines == old(self).mapping_lines,
    {
        let ghost t0 = old(self).names.deep_view();
        let ghost xs = names.deep_view();
        let mut r: Vec<u32> = Vec::new();
        let n = names.len();
        let mut j: usize = 0;
        while j < n
            invariant
                j <= n,
                n == names@.len(),
                xs == names.deep_view(),
                self.wf(),
                t0.len() + n < u32::MAX as usize,
                self.names.deep_view() == table_add_all(t0, xs.take(j as int)),
                self.names@.len() <= t0.len() + j,
                t0.is_prefix_of(self.names.deep_view()),
                r@.len() == j,
                forall|i: int|
                    0 <= i < j ==> r@[i] as int == table_indexes(t0, xs.take(j as int))[i],
                self.sources == old(self).sources,
                self.sources_content == old(self).sources_content,
                self.mapping_lines == old(self).mapping_lines,
            decreases n - j,
        {
            let ghost pre = self.names.deep_view();
            proof {
                assert(xs.take(j + 1) =~= xs.take(j as int).push(xs[j as int]));
                lemma_table_add_all_snoc(t0, xs.take(j as int), xs[j as int]);
                lemma_table_indexes_len(t0, xs.take(j as int));
                lemma_table_indexes_len(t0, xs.take(j + 1));
            }
            let idx = self.add_name(names[j].clone());
            r.push(idx);
            proof {
                assert(table_indexes(t0, xs.take(j + 1)) == table_indexes(
                    t0,
                    xs.take(j as int),
                ).push(table_index(pre, xs[j as int])));
                assert(forall|i: int|
                    0 <= i < j ==> table_indexes(t0, xs.take(j + 1))[i] == table_indexes(
                        t0,
                        xs.take(j as int),
                    )[i]);
                assert(t0.is_prefix_of(self.names.deep_view())) by {
                    assert(forall|i: int|
                        0 <= i < t0.len() ==> pre[i] == self.names.deep_view()[i]);
                    assert(t0 =~= self.names.deep_view().take(t0.len() as int));
                }
            }
            j += 1;
        }
        proof {
            assert(xs.take(n as int) =~= xs);
        }
        r
    }

    /// Install the full text of the source at `source_index`, overwriting any
    /// text recorded for it before. Fails with `SourceOutOfRange`, and
    /// changes nothing, exactly when `source_index` is not a valid index into
    /// the `sources` table.
    pub fn set_source_content(&mut self, source_index: u32, source_content: String) -> (r: Result<
        (),
        SourceMapError,
    >)
        requires
            old(self).wf(),
        ensures
            final(self).wf(),
            r is Ok <==> (source_index as int) < old(self).sources@.len(),
            r is Ok ==> final(self).contents_model() == old(self).contents_model().insert(
                source_index,
                source_content@,
            ),
            r is Ok ==> final(self).sources == old(self).sources,
            r matches Err(e) ==> e.error_type == SourceMapErrorType::SourceOutOfRange,
            r is Err ==> final(self).sources == old(self).sources && final(self).sources_content
                == old(self).sources_content,
            final(self).names == old(self).names,
            final(self).mapping_lines == old(self).mapping_lines,
    {
        if (source_index as usize) >= self.sources.len() {
            return Err(SourceMapError::new(SourceMapErrorType::SourceOutOfRange, None));
        }
        let ghost s = old(self).sources_content@;
        let len = self.sources_content.len();
        let mut i: usize = len;
        while i > 0 && self.sources_content[i - 1].0 >= source_index
            invariant
                i <= len,
                len == self.sources_content@.len(),
                self.sources_content@ == s,
                forall|j: int| i <= j < len ==> self.sources_content@[j].0 >= source_index,
            decreases i,
        {
            i = i - 1;
        }
        assert(forall|j: int| 0 <= j < i ==> s[j].0 < source_index) by {
            if i > 0 {
                assert(s[i - 1].0 < source_index);
            }
        }
        if i < len && self.sources_content[i].0 == source_index {
            self.sources_content.set(i, (source_index, source_content));
            proof {
                let t = self.sources_content@;
                lemma_keyed_update(s, i as int, t[i as int]);
            }
        } else {
            proof {
                if i < len {
                    assert(forall|j: int| i < j < len ==> s[j].0 > s[i as int].0);
                }
            }
            self.sources_content.insert(i, (source_index, source_content));
            proof {
                let t = self.sources_content@;
                lemma_keyed_insert(s, i as int, t[i as int]);
            }
        }
        proof {
            assert(self.contents_model() =~= old(self).contents_model().insert(
                source_index,
                source_content@,
            ));
        }
        Ok(())
    }

    /// Append the Source Map V3 `mappings` string of this map to `output`:
    /// one `;` per generated line stepped over, `,` between the mappings of
    /// a line, and each mapping as VLQ deltas against the running counters.
    /// The sink is a byte vector, so the write cannot fail.
    #[verifier::rlimit(100)]
    pub fn write_vlq(&self, output: &mut Vec<u8>) -> (r: Result<(), SourceMapError>)
        requires
            self.wf(),
        ensures
            r is Ok,
            final(output)@ == old(output)@ + serialized(self.mapping_lines@),
    {
        let ghost lines = self.mapping_lines@;
        let mut last_generated_line: u32 = 0;
        let mut previous_source: u32 = 0;
        let mut previous_original_line: u32 = 0;
        let mut previous_original_column: u32 = 0;
        let mut previous_name: u32 = 0;
        let n = self.mapping_lines.len();
        let mut idx: usize = 0;
        while idx < n
            invariant
                idx <= n,
                n == lines.len(),
                lines == self.mapping_lines@,
                self.wf(),
                idx > 0 ==> last_generated_line as int == lines[idx - 1].0 as int,
                idx == 0 ==> last_generated_line == 0,
                old(output)@ + serialized(lines) == output@ + lines_tail(
                    lines,
                    idx as int,
                    last_generated_line as int,
                    WriteState {
                        source: previous_source as int,
                        original_line: previous_original_line as int,
                        original_column: previous_original_column as int,
                        name: previous_name as int,
                    },
                ),
            decreases n - idx,
        {
            let ghost st_line = WriteState {
                source: previous_source as int,
                original_line: previous_original_line as int,
                original_column: previous_original_column as int,
                name: previous_name as int,
            };
            let entry_line = self.mapping_lines[idx].0;
            proof {
                if idx > 0 {
                    assert(lines[idx - 1].0 < lines[idx as int].0);
                }
            }
            let steps = entry_line - last_generated_line;
            let ghost out_zero = output@;
            let mut w: u32 = 0;
            while w < steps
                invariant
                    w <= steps,
                    output@ == out_zero + repeat_byte(SEMICOLON, w as int),
                decreases steps - w,
            {
                output.push(SEMICOLON);
                w = w + 1;
                proof {
                    assert(output@ =~= out_zero + repeat_byte(SEMICOLON, w as int));
                }
            }
            let ghost out_line = output@;
            assert(out_line == out_zero + repeat_byte(SEMICOLON, entry_line - last_generated_line));
            let line = &self.mapping_lines[idx].1;
            let ghost cols = line.mappings@;
            let mut previous_generated_column: u32 = 0;
            let m = line.mappings.len();
            let mut j: usize = 0;
            while j < m
                invariant
                    j <= m,
                    m == cols.len(),
                    cols == line.mappings@,
                    crate::ordered::keyed_wf(cols),
                    j > 0 ==> previous_generated_column as int == cols[j - 1].0 as int,
                    j == 0 ==> previous_generated_column == 0,
                    out_line + line_tail(cols, 0, 0, st_line).0 == output@ + line_tail(
                        cols,
                        j as int,
                        previous_generated_column as int,
                        WriteState {
                            source: previous_source as int,
                            original_line: previous_original_line as int,
                            original_column: previous_original_column as int,
                            name: previous_name as int,
                        },
                    ).0,
                    line_tail(cols, 0, 0, st_line).1 == line_tail(
                        cols,
                        j as int,
                        previous_generated_column as int,
                        WriteState {
                            source: previous_source as int,
                            original_line: previous_original_line as int,
                            original_column: previous_original_column as int,
                            name: previous_name as int,
                        },
                    ).1,
                decreases m - j,
            {
                let ghost st_seg = WriteState {
                    source: previous_source as int,
                    original_line: previous_original_line as int,
                    original_column: previous_original_column as int,
                    name: previous_name as int,
                };
                let ghost out_seg = output@;
                let ghost prev_col = previous_generated_column as int;
                let e = line.mappings[j];
                let (ns, nol, noc, nn) = write_segment(
                    output,
                    e,
                    j == 0,
                    previous_generated_column,
                    previous_source,
                    previous_original_line,
                    previous_original_column,
                    previous_name,
                );
                previous_generated_column = e.0;
                previous_source = ns;
                previous_original_line = nol;
                previous_original_column = noc;
                previous_name = nn;
                proof {
                    let sep: Seq<u8> = if j > 0 {
                        seq![COMMA]
                    } else {
                        Seq::<u8>::empty()
                    };
                    let st_next = WriteState {
                        source: previous_source as int,
                        original_line: previous_original_line as int,
                        original_column: previous_original_column as int,
                        name: previous_name as int,
                    };
                    assert(st_next == segment_state(cols[j as int].1, st_seg));
                    assert(output@ =~= out_seg + (sep + segment_bytes(
                        cols[j as int].0,
                        cols[j as int].1,
                        prev_col,
                        st_seg,
                    )));
                    assert(line_tail(cols, j as int, prev_col, st_seg).0 == (sep + segment_bytes(
                        cols[j as int].0,
                        cols[j as int].1,
                        prev_col,
                        st_seg,
                    )) + line_tail(cols, j + 1, cols[j as int].0 as int, st_next).0);
                    assert(out_line + line_tail(cols, 0, 0, st_line).0 =~= output@ + line_tail(
                        cols,
                        j + 1,
                        cols[j as int].0 as int,
                        st_next,
                    ).0);
                }
                j += 1;
            }
            proof {
                let st_after = WriteState {
                    source: previous_source as int,
                    original_line: previous_original_line as int,
                    original_column: previous_original_column as int,
                    name: previous_name as int,
                };
                assert(line_tail(cols, m as int, previous_generated_column as int, st_after).0
                    =~= Seq::<u8>::empty());
                assert(output@ =~= out_line + line_tail(cols, 0, 0, st_line).0);
                assert(st_after == line_tail(cols, 0, 0, st_line).1);
                assert(lines_tail(lines, idx as int, last_generated_line as int, st_line)
                    == repeat_byte(SEMICOLON, entry_line - last_generated_line) + line_tail(
                    cols,
                    0,
                    0,
                    st_line,
                ).0 + lines_tail(lines, idx + 1, entry_line as int, st_after));
                assert(out_zero + lines_tail(lines, idx as int, last_generated_line as int, st_line)
                    =~= output@ + lines_tail(lines, idx + 1, entry_line as int, st_after));
            }
            last_generated_line = entry_line;
            idx += 1;
        }
        proof {
            let st_end = WriteState {
                source: previous_source as int,
                original_line: previous_original_line as int,
                original_column: previous_original_column as int,
                name: previous_name as int,
            };
            assert(lines_tail(lines, n as int, last_generated_line as int, st_end) =~= Seq::<
                u8,
            >::empty());
            assert(output@ =~= old(output)@ + serialized(lines));
        }
        Ok(())
    }

    /// Parse one segment of a `mappings` string at `pos`, which is known
    /// not to hold a separator: read its deltas into the running counters,
    /// translate its wire indices, and add the mapping it carries.
    #[verifier::rlimit(100)]
    fn parse_one_segment(
        &mut self,
        input: &[u8],
        pos: usize,
        generated_line: u32,
        generated_column: u32,
        source: u32,
        original_line: u32,
        original_column: u32,
        name: u32,
        source_indexes: &Vec<u32>,
        name_indexes: &Vec<u32>,
        Ghost(sm): Ghost<Seq<int>>,
        Ghost(nmap): Ghost<Seq<int>>,
    ) -> (r: Result<SegCounters, SourceMapError>)
        requires
            old(self).wf(),
            pos < input@.len(),
            source_indexes@.len() == sm.len(),
            forall|k: int| 0 <= k < sm.len() ==> (#[trigger] source_indexes@[k]) as int == sm[k],
            name_indexes@.len() == nmap.len(),
            forall|k: int| 0 <= k < nmap.len() ==> (#[trigger] name_indexes@[k]) as int == nmap[k],
        ensures
            final(self).wf(),
            final(self).sources == old(self).sources,
            final(self).names == old(self).names,
            final(self).sources_content == old(self).sources_content,
            ({
                let cst = ParseState {
                    pos: pos as int,
                    generated_line: generated_line as int,
                    generated_column: generated_column as int,
                    source: source as int,
                    original_line: original_line as int,
                    original_column: original_column as int,
                    name: name as int,
                };
                match r {
                    Ok(c) => parse_segment(input@, cst, sm, nmap) matches SegOut::Seg {
                        st: st2,
                        m,
                    } && st2 == (ParseState {
                        pos: c.pos as int,
                        generated_line: generated_line as int,
                        generated_column: c.generated_column as int,
                        source: c.source as int,
                        original_line: c.original_line as int,
                        original_column: c.original_column as int,
                        name: c.name as int,
                    }) && final(self).model() == mapping_insert(old(self).model(), m) && pos
                        < c.pos <= input@.len(),
                    Err(e) => parse_segment(input@, cst, sm, nmap) == (SegOut::SegFail {
                        kind: e.error_type,
                    }) && final(self).model() == old(self).model(),
                }
            }),
    {
        let ghost s = input@;
        let ghost cst = ParseState {
            pos: pos as int,
            generated_line: generated_line as int,
            generated_column: generated_column as int,
            source: source as int,
            original_line: original_line as int,
            original_column: original_column as int,
            name: name as int,
        };
        let len = input.len();
        let (col, p1) = match read_relative(input, pos, generated_column) {
            Err(k) => {
                return Err(SourceMapError::new(k, None));
            },
            Ok(v) => v,
        };
        proof {
            crate::vlq::lemma_vlq_scan_bounds(s, pos as int);
        }
        let boundary = p1 >= len || input[p1] == COMMA || input[p1] == SEMICOLON;
        if boundary {
            let mp = Mapping::new(generated_line, col, None);
            proof {
                assert(at_separator(s, p1 as int));
            }
            self.add_mapping(mp);
            return Ok(
                SegCounters {
                    generated_column: col,
                    source,
                    original_line,
                    original_column,
                    name,
                    pos: p1,
                },
            );
        }
        proof {
            assert(!at_separator(s, p1 as int));
        }
        let (src, p2) = match read_relative(input, p1, source) {
            Err(k) => {
                return Err(SourceMapError::new(k, None));
            },
            Ok(v) => v,
        };
        proof {
            crate::vlq::lemma_vlq_scan_bounds(s, p1 as int);
        }
        let (oline, p3) = match read_relative(input, p2, original_line) {
            Err(k) => {
                return Err(SourceMapError::new(k, None));
            },
            Ok(v) => v,
        };
        proof {
            crate::vlq::lemma_vlq_scan_bounds(s, p2 as int);
        }
        let (ocol, p4) = match read_relative(input, p3, original_column) {
            Err(k) => {
                return Err(SourceMapError::new(k, None));
            },
            Ok(v) => v,
        };
        proof {
            crate::vlq::lemma_vlq_scan_bounds(s, p3 as int);
        }
        if src as usize >= source_indexes.len() {
            proof {
                assert(src as int >= sm.len());
            }
            return Err(SourceMapError::new(SourceMapErrorType::SourceOutOfRange, None));
        }
        let real_source = source_indexes[src as usize];
        proof {
            assert(real_source as int == sm[src as int]);
        }
        let boundary2 = p4 >= len || input[p4] == COMMA || input[p4] == SEMICOLON;
        if boundary2 {
            let mp = Mapping::new(
                generated_line,
                col,
                Some(OriginalLocation::new(oline, ocol, real_source, None)),
            );
            proof {
                assert(at_separator(s, p4 as int));
            }
            self.add_mapping(mp);
            return Ok(
                SegCounters {
                    generated_column: col,
                    source: src,
                    original_line: oline,
                    original_column: ocol,
                    name,
                    pos: p4,
                },
            );
        }
        proof {
            assert(!at_separator(s, p4 as int));
        }
        let (nm, p5) = match read_relative(input, p4, name) {
            Err(k) => {
                return Err(SourceMapError::new(k, None));
            },
            Ok(v) => v,
        };
        proof {
            crate::vlq::lemma_vlq_scan_bounds(s, p4 as int);
        }
        if nm as usize >= name_indexes.len() {
            proof {
                assert(nm as int >= nmap.len());
            }
            return Err(SourceMapError::new(SourceMapErrorType::NameOutOfRange, None));
        }
        let real_name = name_indexes[nm as usize];
        proof {
            assert(real_name as int == nmap[nm as int]);
        }
        let mp = Mapping::new(
            generated_line,
            col,
            Some(OriginalLocation::new(oline, ocol, real_source, Some(real_name))),
        );
        self.add_mapping(mp);
        Ok(
            SegCounters {
                generated_column: col,
                source: src,
                original_line: oline,
                original_column: ocol,
                name: nm,
                pos: p5,
            },
        )
    }

    /// Parse a `mappings` string and add every mapping it carries. The given
    /// source and name lists are first merged into the map's tables, and the
    /// string's wire indices are translated through them. On an error the
    /// tables stay merged and the mappings parsed before the error stay
    /// added: the operation is not atomic.
    #[verifier::rlimit(100)]
    pub fn add_vql_mappings(&mut self, input: &[u8], sources: Vec<String>, names: Vec<String>) -> (r:
        Result<(), SourceMapError>)
        requires
            old(self).wf(),
            old(self).sources@.len() + sources@.len() < u32::MAX as usize,
            old(self).names@.len() + names@.len() < u32::MAX as usize,
            input@.len() <= u32::MAX as usize,
        ensures
            final(self).wf(),
            final(self).sources.deep_view() == table_add_all(
                old(self).sources.deep_view(),
                sources.deep_view(),
            ),
            final(self).names.deep_view() == table_add_all(
                old(self).names.deep_view(),
                names.deep_view(),
            ),
            final(self).sources_content == old(self).sources_content,
            ({
                let out = parse_tail(
                    input@,
                    fresh_parse_state(),
                    table_indexes(old(self).sources.deep_view(), sources.deep_view()),
                    table_indexes(old(self).names.deep_view(), names.deep_view()),
                );
                &&& (r is Ok <==> out.error is None)
                &&& (r matches Err(e) ==> out.error == Some(e.error_type))
                &&& final(self).model() == apply_mappings(old(self).model(), out.mappings)
            }),
    {
        let ghost s = input@;
        let ghost sm = table_indexes(old(self).sources.deep_view(), sources.deep_view());
        let ghost nmap = table_indexes(old(self).names.deep_view(), names.deep_view());
        let ghost full = parse_tail(s, fresh_parse_state(), sm, nmap);
        let ghost m0 = old(self).model();
        let source_indexes: Vec<u32> = self.add_sources(sources);
        let name_indexes: Vec<u32> = self.add_names(names);
        proof {
            lemma_table_indexes_len(old(self).sources.deep_view(), sources.deep_view());
            lemma_table_indexes_len(old(self).names.deep_view(), names.deep_view());
        }
        let mut generated_line: u32 = 0;
        let mut generated_column: u32 = 0;
        let mut source: u32 = 0;
        let mut original_line: u32 = 0;
        let mut original_column: u32 = 0;
        let mut name: u32 = 0;
        let mut pos: usize = 0;
        let len = input.len();
        let ghost mut done: Seq<Mapping> = Seq::empty();
        proof {
            assert(self.model() =~= m0);
            assert(apply_mappings(m0, done) == m0);
            assert(full.mappings =~= done + full.mappings);
        }
        while pos < len
            invariant
                pos <= len,
                len == s.len(),
                s == input@,
                s.len() <= u32::MAX as usize,
                sm == table_indexes(old(self).sources.deep_view(), sources.deep_view()),
                nmap == table_indexes(old(self).names.deep_view(), names.deep_view()),
                full == parse_tail(s, fresh_parse_state(), sm, nmap),
                m0 == old(self).model(),
                generated_line as int <= pos as int,
                self.wf(),
                self.sources.deep_view() == table_add_all(
                    old(self).sources.deep_view(),
                    sources.deep_view(),
                ),
                self.names.deep_view() == table_add_all(
                    old(self).names.deep_view(),
                    names.deep_view(),
                ),
                self.sources_content == old(self).sources_content,
                source_indexes@.len() == sm.len(),
                forall|k: int|
                    0 <= k < sm.len() ==> (#[trigger] source_indexes@[k]) as int == sm[k],
                name_indexes@.len() == nmap.len(),
                forall|k: int| 0 <= k < nmap.len() ==> (#[trigger] name_indexes@[k]) as int == nmap[k],
                self.model() == apply_mappings(m0, done),
                ({
                    let rest = parse_tail(
                        s,
                        ParseState {
                            pos: pos as int,
                            generated_line: generated_line as int,
                            generated_column: generated_column as int,
                            source: source as int,
                            original_line: original_line as int,
                            original_column: original_column as int,
                            name: name as int,
                        },
                        sm,
                        nmap,
                    );
                    full.mappings == done + rest.mappings && full.error == rest.error
                }),
            decreases len - pos,
        {
            let ghost cst = ParseState {
                pos: pos as int,
                generated_line: generated_line as int,
                generated_column: generated_column as int,
                source: source as int,
                original_line: original_line as int,
                original_column: original_column as int,
                name: name as int,
            };
            let b = input[pos];
            if b == SEMICOLON {
                generated_line = generated_line + 1;
                generated_column = 0;
                pos = pos + 1;
            } else if b == COMMA {
                pos = pos + 1;
            } else {
                let ghost pre = self.model();
                match self.parse_one_segment(
                    input,
                    pos,
                    generated_line,
                    generated_column,
                    source,
                    original_line,
                    original_column,
                    name,
                    &source_indexes,
                    &name_indexes,
                    Ghost(sm),
                    Ghost(nmap),
                ) {
                    Err(e) => {
                        proof {
                            assert(parse_tail(s, cst, sm, nmap) == (ParseOut {
                                mappings: Seq::<Mapping>::empty(),
                                error: Some(e.error_type),
                            }));
                            assert(full.mappings =~= done);
                        }
                        return Err(e);
                    },
                    Ok(c) => {
                        proof {
                            match parse_segment(s, cst, sm, nmap) {
                                SegOut::Seg { st: st2, m: mp } => {
                                    assert(self.model() == mapping_insert(pre, mp));
                                    assert(pre == apply_mappings(m0, done));
                                    lemma_apply_mappings_snoc(m0, done, mp);
                                    let rest2 = parse_tail(s, st2, sm, nmap);
                                    assert(parse_tail(s, cst, sm, nmap) == (ParseOut {
                                        mappings: seq![mp] + rest2.mappings,
                                        error: rest2.error,
                                    }));
                                    assert(full.mappings =~= done.push(mp) + rest2.mappings);
                                    done = done.push(mp);
                                },
                                _ => {
                                    assert(false);
                                },
                            }
                        }
                        generated_column = c.generated_column;
                        source = c.source;
                        original_line = c.original_line;
                        original_column = c.original_column;
                        name = c.name;
                        pos = c.pos;
                    },
                }
            }
        }
        proof {
            assert(full.mappings =~= done);
        }
        Ok(())
    }

    /// The position of the entry for `generated_line` in the line sequence,
    /// if that line holds any mapping.
    fn find_line_index(&self, generated_line: u32) -> (r: Option<usize>)
        requires
            self.wf(),
        ensures
            match r {
                Some(i) => i < self.mapping_lines@.len() && self.mapping_lines@[i as int].0
                    == generated_line,
                None => forall|j: int|
                    0 <= j < self.mapping_lines@.len() ==> (#[trigger] self.mapping_lines@[j]).0
                        != generated_line,
            },
    {
        let len = self.mapping_lines.len();
        let mut i: usize = 0;
        while i < len
            invariant
                i <= len,
                len == self.mapping_lines@.len(),
                forall|j: int|
                    0 <= j < i ==> (#[trigger] self.mapping_lines@[j]).0 != generated_line,
            decreases len - i,
        {
            if self.mapping_lines[i].0 == generated_line {
                return Some(i);
            }
            i += 1;
        }
        None
    }

    /// Return the mapping on line `generated_line` whose column is the
    /// greatest strictly below `generated_column`; `None` when the line is
    /// absent or holds no entry before that column. The search never falls
    /// back to an earlier line.
    pub fn find_closest_mapping(&self, generated_line: u32, generated_column: u32) -> (r: Option<
        Mapping,
    >)
        requires
            self.wf(),
        ensures
            match r {
                Some(m) => {
                    &&& m.generated_line == generated_line
                    &&& m.generated_column < generated_column
                    &&& self.line_model(generated_line).dom().contains(m.generated_column)
                    &&& self.line_model(generated_line)[m.generated_column] == m.original
                    &&& forall|c: u32|
                        self.line_model(generated_line).dom().contains(c) && c < generated_column
                            ==> c <= m.generated_column
                },
                None => forall|c: u32|
                    self.line_model(generated_line).dom().contains(c) ==> c >= generated_column,
            },
    {
        proof {
            lemma_keyed_model(self.mapping_lines@);
        }
        match self.find_line_index(generated_line) {
            None => {
                proof {
                    assert forall|c: u32|
                        self.line_model(generated_line).dom().contains(c) implies c
                        >= generated_column by {
                        assert(!self.model().dom().contains(generated_line));
                    }
                }
                None
            },
            Some(i) => {
                let line = &self.mapping_lines[i].1;
                proof {
                    assert(self.model().dom().contains(generated_line));
                    assert(self.line_model(generated_line) == line.model());
                    lemma_keyed_model(line.mappings@);
                }
                let ghost cols = line.mappings@;
                let n = line.mappings.len();
                let mut j: usize = n;
                while j > 0 && line.mappings[j - 1].0 >= generated_column
                    invariant
                        j <= n,
                        n == line.mappings@.len(),
                        line.mappings@ == cols,
                        forall|q: int| j <= q < n ==> cols[q].0 >= generated_column,
                    decreases j,
                {
                    j = j - 1;
                }
                if j == 0 {
                    proof {
                        assert forall|c: u32|
                            self.line_model(generated_line).dom().contains(c) implies c
                            >= generated_column by {
                            let q = choose|q: int| 0 <= q < cols.len() && cols[q].0 == c;
                        }
                    }
                    None
                } else {
                    let e = line.mappings[j - 1];
                    proof {
                        assert(e == cols[j - 1]);
                        assert(e.0 < generated_column);
                        assert forall|c: u32|
                            self.line_model(generated_line).dom().contains(c) && c
                            < generated_column implies c <= e.0 by {
                            let q = choose|q: int| 0 <= q < cols.len() && cols[q].0 == c;
                            if q > j - 1 {
                                assert(cols[q].0 >= generated_column);
                            } else if q < j - 1 {
                                assert(cols[q].0 < cols[j - 1].0);
                            }
                        }
                    }
                    Some(Mapping::new(generated_line, e.0, e.1))
                }
            },
        }
    }

    /// Shift, on the line at `generated_line`, every entry at or to the right
    /// of `generated_column` by `generated_column_offset`; entries the
    /// shifted block slides over are overwritten, and a line left empty is
    /// dropped. Succeeds silently when the line is absent. Fails, changing
    /// nothing, exactly when a shifted column would leave the `u32` range.
    pub fn offset_columns(
        &mut self,
        generated_line: u32,
        generated_column: u32,
        generated_column_offset: i64,
    ) -> (r: Result<(), SourceMapError>)
        requires
            old(self).wf(),
        ensures
            final(self).wf(),
            r is Ok <==> shift_ok(
                old(self).line_model(generated_line),
                generated_column,
                generated_column_offset as int,
            ),
            r is Ok ==> final(self).model() == (if !old(self).model().dom().contains(
                generated_line,
            ) {
                old(self).model()
            } else if shift_model(
                old(self).model()[generated_line],
                generated_column,
                generated_column_offset as int,
            ) == Map::<u32, Option<OriginalLocation>>::empty() {
                old(self).model().remove(generated_line)
            } else {
                old(self).model().insert(
                    generated_line,
                    shift_model(
                        old(self).model()[generated_line],
                        generated_column,
                        generated_column_offset as int,
                    ),
                )
            }),
            r is Err ==> final(self).model() == old(self).model(),
            r matches Err(e) ==> e.error_type == SourceMapErrorType::UnexpectedNegativeNumber,
            final(self).sources == old(self).sources,
            final(self).sources_content == old(self).sources_content,
            final(self).names == old(self).names,
    {
        let ghost s = old(self).mapping_lines@;
        proof {
            lemma_keyed_model(s);
        }
        match self.find_line_index(generated_line) {
            None => {
                proof {
                    assert(!self.model().dom().contains(generated_line));
                    assert(self.line_model(generated_line) == Map::<
                        u32,
                        Option<OriginalLocation>,
                    >::empty());
                }
                Ok(())
            },
            Some(i) => {
                proof {
                    assert(self.model().dom().contains(generated_line));
                    assert(old(self).line_model(generated_line) == s[i as int].1.model());
                }
                let mut entry = self.mapping_lines.remove(i);
                let res = entry.1.offset_columns(generated_column, generated_column_offset);
                let emptied = entry.1.mappings.len() == 0;
                proof {
                    lemma_keyed_model(entry.1.mappings@);
                    if emptied {
                        assert(entry.1.model() =~= Map::<u32, Option<OriginalLocation>>::empty());
                    } else {
                        assert(entry.1.model().dom().contains(entry.1.mappings@[0].0));
                        assert(entry.1.model() != Map::<u32, Option<OriginalLocation>>::empty())
                            by {
                            assert(!Map::<u32, Option<OriginalLocation>>::empty().dom().contains(
                                entry.1.mappings@[0].0,
                            ));
                        }
                    }
                }
                if emptied {
                    proof {
                        assert(self.mapping_lines@ == s.remove(i as int));
                        lemma_keyed_remove(s, i as int);
                        assert(self.model() =~= old(self).model().remove(generated_line));
                    }
                    Ok(())
                } else {
                    self.mapping_lines.insert(i, entry);
                    proof {
                        let t = self.mapping_lines@;
                        assert(t =~= s.update(i as int, t[i as int]));
                        lemma_keyed_update(s, i as int, t[i as int]);
                        lemma_keyed_model(t);
                        if res is Ok {
                            assert(self.model() =~= old(self).model().insert(
                                generated_line,
                                shift_model(
                                    old(self).model()[generated_line],
                                    generated_column,
                                    generated_column_offset as int,
                                ),
                            ));
                        } else {
                            assert(t[i as int].1.model() == s[i as int].1.model());
                            assert(self.model() =~= old(self).model());
                        }
                    }
                    match res {
                        Ok(_) => Ok(()),
                        Err(e) => Err(e),
                    }
                }
            },
        }
    }

    /// Shift every line numbered `generated_line` or more by
    /// `generated_line_offset`, carrying each one's entries along; lines the
    /// shifted block slides over are overwritten. Fails, changing nothing,
    /// exactly when a shifted line number would leave the `u32` range.
    pub fn offset_lines(&mut self, generated_line: u32, generated_line_offset: i64) -> (r: Result<
        (),
        SourceMapError,
    >)
        requires
            old(self).wf(),
        ensures
            final(self).wf(),
            r is Ok <==> shift_ok(old(self).model(), generated_line, generated_line_offset as int),
            r is Ok ==> final(self).model() == shift_merge_model(
                old(self).model(),
                generated_line,
                generated_line_offset as int,
            ),
            r is Err ==> final(self).mapping_lines@ == old(self).mapping_lines@,
            r matches Err(e) ==> e.error_type == SourceMapErrorType::UnexpectedNegativeNumber,
            final(self).sources == old(self).sources,
            final(self).sources_content == old(self).sources_content,
            final(self).names == old(self).names,
    {
        let ghost s = old(self).mapping_lines@;
        let ok = merge_shift_keys(&mut self.mapping_lines, generated_line, generated_line_offset);
        let ghost t = self.mapping_lines@;
        let ghost off = generated_line_offset as int;
        proof {
            lemma_lines_shift_ok(s, generated_line, off);
            if ok {
                lemma_lines_merge_shift(s, t, generated_line, off);
            }
        }
        if ok {
            Ok(())
        } else {
            Err(SourceMapError::new(SourceMapErrorType::UnexpectedNegativeNumber, None))
        }
    }
}

} // verus!
