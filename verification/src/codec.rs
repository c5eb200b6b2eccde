use vstd::prelude::*;

use crate::mapping::{Mapping, OriginalLocation};
use crate::mapping_line::ColumnEntry;
use crate::sourcemap_error::SourceMapErrorType;
use crate::vlq::{
    lemma_rel_read_encoded, lemma_vlq_bytes_not_separator, lemma_vlq_scan_bounds, rel_read,
    vlq_encode, zigzag, RelOut, COMMA, SEMICOLON,
};
use crate::ordered::{keyed_model, keyed_wf, lemma_keyed_model};
use crate::{lines_model, LineEntry};

verus! {

/// The running counters of the writer that persist across the whole
/// mappings string; the generated-column counter does not, and is carried
/// separately.
pub struct WriteState {
    pub source: int,
    pub original_line: int,
    pub original_column: int,
    pub name: int,
}

/// The counters at the start of a mappings string.
pub open spec fn fresh_write_state() -> WriteState {
    WriteState { source: 0, original_line: 0, original_column: 0, name: 0 }
}

/// The bytes of one segment: the column delta; for a mapping with an
/// original position also the source, line and column deltas; and, when a
/// name is attached, the name delta.
pub open spec fn segment_bytes(
    col: u32,
    orig: Option<OriginalLocation>,
    prev_col: int,
    st: WriteState,
) -> Seq<u8> {
    vlq_encode(col - prev_col) + match orig {
        Option::None => Seq::<u8>::empty(),
        Option::Some(o) => vlq_encode(o.source - st.source) + vlq_encode(
            o.original_line - st.original_line,
        ) + vlq_encode(o.original_column - st.original_column) + match o.name {
            Option::None => Seq::<u8>::empty(),
            Option::Some(nm) => vlq_encode(nm - st.name),
        },
    }
}

/// The counters after one segment.
pub open spec fn segment_state(orig: Option<OriginalLocation>, st: WriteState) -> WriteState {
    match orig {
        Option::None => st,
        Option::Some(o) => WriteState {
            source: o.source as int,
            original_line: o.original_line as int,
            original_column: o.original_column as int,
            name: match o.name {
                Option::None => st.name,
                Option::Some(nm) => nm as int,
            },
        },
    }
}

/// The bytes of a line's entries from position `j` on, comma-separated, and
/// the counters after them.
pub open spec fn line_tail(cols: Seq<ColumnEntry>, j: int, prev_col: int, st: WriteState) -> (
    Seq<u8>,
    WriteState,
)
    decreases cols.len() - j,
{
    if j < 0 || j >= cols.len() {
        (Seq::<u8>::empty(), st)
    } else {
        let sep: Seq<u8> = if j > 0 {
            seq![COMMA]
        } else {
            Seq::<u8>::empty()
        };
        let rest = line_tail(cols, j + 1, cols[j].0 as int, segment_state(cols[j].1, st));
        (sep + segment_bytes(cols[j].0, cols[j].1, prev_col, st) + rest.0, rest.1)
    }
}

/// `n` repetitions of one byte.
pub open spec fn repeat_byte(b: u8, n: int) -> Seq<u8> {
    Seq::new(
        if n < 0 {
            0nat
        } else {
            n as nat
        },
        |i: int| b,
    )
}

/// The bytes of the lines from position `idx` on: each line is introduced
/// by one `;` per generated line stepped over since the last one written,
/// and its own entries restart the column counter at zero.
pub open spec fn lines_tail(lines: Seq<LineEntry>, idx: int, last_line: int, st: WriteState) -> Seq<
    u8,
>
    decreases lines.len() - idx,
{
    if idx < 0 || idx >= lines.len() {
        Seq::<u8>::empty()
    } else {
        let lr = line_tail(lines[idx].1.mappings@, 0, 0, st);
        repeat_byte(SEMICOLON, lines[idx].0 - last_line) + lr.0 + lines_tail(
            lines,
            idx + 1,
            lines[idx].0 as int,
            lr.1,
        )
    }
}

/// The whole mappings string of an index.
pub open spec fn serialized(lines: Seq<LineEntry>) -> Seq<u8> {
    lines_tail(lines, 0, 0, fresh_write_state())
}

/// The parser's running state: a position in the input and the six
/// counters.
pub struct ParseState {
    pub pos: int,
    pub generated_line: int,
    pub generated_column: int,
    pub source: int,
    pub original_line: int,
    pub original_column: int,
    pub name: int,
}

/// The parser's state at the start of the input.
pub open spec fn fresh_parse_state() -> ParseState {
    ParseState {
        pos: 0,
        generated_line: 0,
        generated_column: 0,
        source: 0,
        original_line: 0,
        original_column: 0,
        name: 0,
    }
}

/// Whether position `i` ends a segment: a separator byte, or the end of
/// the input.
pub open spec fn at_separator(s: Seq<u8>, i: int) -> bool {
    i >= s.len() || s[i] == COMMA || s[i] == SEMICOLON
}

/// What parsing one segment yields.
pub enum SegOut {
    /// The parser state after the segment, and the mapping it carries.
    Seg { st: ParseState, m: Mapping },
    /// Why the segment was refused.
    SegFail { kind: SourceMapErrorType },
}

/// Parse one segment at `st.pos`, which does not hold a separator: the
/// column delta always, then, unless a separator follows, the source, line
/// and column deltas, then, unless a separator follows, the name delta.
/// Wire indices are translated through the given index tables; one outside
/// its table is refused.
pub open spec fn parse_segment(
    s: Seq<u8>,
    st: ParseState,
    src_map: Seq<int>,
    name_map: Seq<int>,
) -> SegOut {
    match rel_read(s, st.pos, st.generated_column) {
        RelOut::Bad { kind } => SegOut::SegFail { kind },
        RelOut::Good { value: col, next: p1 } => {
            if at_separator(s, p1) {
                SegOut::Seg {
                    st: ParseState { pos: p1, generated_column: col, ..st },
                    m: Mapping {
                        generated_line: st.generated_line as u32,
                        generated_column: col as u32,
                        original: Option::None,
                    },
                }
            } else {
                match rel_read(s, p1, st.source) {
                    RelOut::Bad { kind } => SegOut::SegFail { kind },
                    RelOut::Good { value: src, next: p2 } => {
                        match rel_read(s, p2, st.original_line) {
                            RelOut::Bad { kind } => SegOut::SegFail { kind },
                            RelOut::Good { value: oline, next: p3 } => {
                                match rel_read(s, p3, st.original_column) {
                                    RelOut::Bad { kind } => SegOut::SegFail { kind },
                                    RelOut::Good { value: ocol, next: p4 } => {
                                        if src >= src_map.len() {
                                            SegOut::SegFail {
                                                kind: SourceMapErrorType::SourceOutOfRange,
                                            }
                                        } else if at_separator(s, p4) {
                                            SegOut::Seg {
                                                st: ParseState {
                                                    pos: p4,
                                                    generated_column: col,
                                                    source: src,
                                                    original_line: oline,
                                                    original_column: ocol,
                                                    ..st
                                                },
                                                m: Mapping {
                                                    generated_line: st.generated_line as u32,
                                                    generated_column: col as u32,
                                                    original: Option::Some(
                                                        OriginalLocation {
                                                            original_line: oline as u32,
                                                            original_column: ocol as u32,
                                                            source: src_map[src] as u32,
                                                            name: Option::None,
                                                        },
                                                    ),
                                                },
                                            }
                                        } else {
                                            match rel_read(s, p4, st.name) {
                                                RelOut::Bad { kind } => SegOut::SegFail { kind },
                                                RelOut::Good { value: nm, next: p5 } => {
                                                    if nm >= name_map.len() {
                                                        SegOut::SegFail {
                                                            kind: SourceMapErrorType::NameOutOfRange,
                                                        }
                                                    } else {
                                                        SegOut::Seg {
                                                            st: ParseState {
                                                                pos: p5,
                                                                generated_column: col,
                                                                source: src,
                                                                original_line: oline,
                                                                original_column: ocol,
                                                                name: nm,
                                                                ..st
                                                            },
                                                            m: Mapping {
                                                                generated_line: st.generated_line
                                                                    as u32,
                                                                generated_column: col as u32,
                                                                original: Option::Some(
                                                                    OriginalLocation {
                                                                        original_line: oline as u32,
                                                                        original_column: ocol
                                                                            as u32,
                                                                        source: src_map[src] as u32,
                                                                        name: Option::Some(
                                                                            name_map[nm] as u32,
                                                                        ),
                                                                    },
                                                                ),
                                                            },
                                                        }
                                                    }
                                                },
                                            }
                                        }
                                    },
                                }
                            },
                        }
                    },
                }
            }
        },
    }
}

/// What parsing the whole input yields: the mappings it carries, in input
/// order, and the error that stopped the parse, if one did. Mappings before
/// the error are still listed: the parse is not atomic.
pub struct ParseOut {
    pub mappings: Seq<Mapping>,
    pub error: Option<SourceMapErrorType>,
}

/// A parsed segment moves the parser forward and not past the end.
pub proof fn lemma_parse_segment_advances(
    s: Seq<u8>,
    st: ParseState,
    src_map: Seq<int>,
    name_map: Seq<int>,
)
    ensures
        parse_segment(s, st, src_map, name_map) matches SegOut::Seg { st: st2, m } ==> st.pos
            < st2.pos <= s.len(),
{
    lemma_vlq_scan_bounds(s, st.pos);
    match rel_read(s, st.pos, st.generated_column) {
        RelOut::Good { value: _, next: p1 } => {
            lemma_vlq_scan_bounds(s, p1);
            match rel_read(s, p1, st.source) {
                RelOut::Good { value: _, next: p2 } => {
                    lemma_vlq_scan_bounds(s, p2);
                    match rel_read(s, p2, st.original_line) {
                        RelOut::Good { value: _, next: p3 } => {
                            lemma_vlq_scan_bounds(s, p3);
                            match rel_read(s, p3, st.original_column) {
                                RelOut::Good { value: _, next: p4 } => {
                                    lemma_vlq_scan_bounds(s, p4);
                                },
                                _ => {},
                            }
                        },
                        _ => {},
                    }
                },
                _ => {},
            }
        },
        _ => {},
    }
}

/// Parse the input from `st` on: separators step the line and column
/// counters, and every other position starts a segment.
pub open spec fn parse_tail(
    s: Seq<u8>,
    st: ParseState,
    src_map: Seq<int>,
    name_map: Seq<int>,
) -> ParseOut
    decreases s.len() - st.pos,
    via parse_tail_dec
{
    if st.pos < 0 || st.pos >= s.len() {
        ParseOut { mappings: Seq::empty(), error: Option::None }
    } else if s[st.pos] == SEMICOLON {
        parse_tail(
            s,
            ParseState {
                pos: st.pos + 1,
                generated_line: st.generated_line + 1,
                generated_column: 0,
                ..st
            },
            src_map,
            name_map,
        )
    } else if s[st.pos] == COMMA {
        parse_tail(s, ParseState { pos: st.pos + 1, ..st }, src_map, name_map)
    } else {
        match parse_segment(s, st, src_map, name_map) {
            SegOut::SegFail { kind } => ParseOut {
                mappings: Seq::empty(),
                error: Option::Some(kind),
            },
            SegOut::Seg { st: st2, m } => {
                let rest = parse_tail(s, st2, src_map, name_map);
                ParseOut { mappings: seq![m] + rest.mappings, error: rest.error }
            },
        }
    }
}

#[via_fn]
proof fn parse_tail_dec(s: Seq<u8>, st: ParseState, src_map: Seq<int>, name_map: Seq<int>) {
    lemma_parse_segment_advances(s, st, src_map, name_map);
}

/// One mapping laid into the two-level model: the entry at its generated
/// column of its generated line is set, and nothing else changes.
pub open spec fn mapping_insert(
    m: Map<u32, Map<u32, Option<OriginalLocation>>>,
    mp: Mapping,
) -> Map<u32, Map<u32, Option<OriginalLocation>>> {
    m.insert(
        mp.generated_line,
        (if m.dom().contains(mp.generated_line) {
            m[mp.generated_line]
        } else {
            Map::<u32, Option<OriginalLocation>>::empty()
        }).insert(mp.generated_column, mp.original),
    )
}

/// A list of mappings laid into the model, first to last.
pub open spec fn apply_mappings(
    m: Map<u32, Map<u32, Option<OriginalLocation>>>,
    ms: Seq<Mapping>,
) -> Map<u32, Map<u32, Option<OriginalLocation>>>
    decreases ms.len(),
{
    if ms.len() == 0 {
        m
    } else {
        apply_mappings(mapping_insert(m, ms.first()), ms.drop_first())
    }
}

/// Laying mappings in one at a time, left to right, lays in the whole list.
pub proof fn lemma_apply_mappings_snoc(
    m: Map<u32, Map<u32, Option<OriginalLocation>>>,
    ms: Seq<Mapping>,
    x: Mapping,
)
    ensures
        apply_mappings(m, ms.push(x)) == mapping_insert(apply_mappings(m, ms), x),
    decreases ms.len(),
{
    let ys = ms.push(x);
    if ms.len() == 0 {
        assert(ys.first() == x);
        assert(ys.drop_first() =~= Seq::<Mapping>::empty());
        assert(apply_mappings(m, ys) == apply_mappings(mapping_insert(m, x), ys.drop_first()));
    } else {
        assert(ys.first() == ms.first());
        assert(ys.drop_first() =~= ms.drop_first().push(x));
        lemma_apply_mappings_snoc(mapping_insert(m, ms.first()), ms.drop_first(), x);
    }
}

/// One segment round-trips: parsing the bytes the writer lays down for a
/// mapping, against the same running counters, yields that mapping back and
/// moves the parser's counters exactly as the writer moved its own. Wire
/// indices that translate to themselves come back unchanged.
#[verifier::rlimit(100)]
pub proof fn lemma_segment_round_trip(
    s: Seq<u8>,
    st: ParseState,
    col: u32,
    orig: Option<OriginalLocation>,
    src_map: Seq<int>,
    name_map: Seq<int>,
)
    requires
        0 <= st.pos,
        0 <= st.generated_line <= u32::MAX,
        0 <= st.generated_column <= u32::MAX,
        0 <= st.source <= u32::MAX,
        0 <= st.original_line <= u32::MAX,
        0 <= st.original_column <= u32::MAX,
        0 <= st.name <= u32::MAX,
        ({
            let ws = WriteState {
                source: st.source,
                original_line: st.original_line,
                original_column: st.original_column,
                name: st.name,
            };
            let bytes = segment_bytes(col, orig, st.generated_column, ws);
            &&& st.pos + bytes.len() <= s.len()
            &&& (forall|j: int| 0 <= j < bytes.len() ==> s[st.pos + j] == bytes[j])
            &&& at_separator(s, st.pos + bytes.len())
        }),
        orig matches Some(o) ==> o.source < src_map.len() && src_map[o.source as int]
            == o.source as int,
        orig matches Some(o) ==> (o.name matches Some(nm) ==> nm < name_map.len() && name_map[
            nm as int
        ] == nm as int),
    ensures
        ({
            let ws = WriteState {
                source: st.source,
                original_line: st.original_line,
                original_column: st.original_column,
                name: st.name,
            };
            let bytes = segment_bytes(col, orig, st.generated_column, ws);
            parse_segment(s, st, src_map, name_map) == (SegOut::Seg {
                st: ParseState {
                    pos: st.pos + bytes.len(),
                    generated_line: st.generated_line,
                    generated_column: col as int,
                    source: match orig {
                        Option::Some(o) => o.source as int,
                        Option::None => st.source,
                    },
                    original_line: match orig {
                        Option::Some(o) => o.original_line as int,
                        Option::None => st.original_line,
                    },
                    original_column: match orig {
                        Option::Some(o) => o.original_column as int,
                        Option::None => st.original_column,
                    },
                    name: match orig {
                        Option::Some(o) => match o.name {
                            Option::Some(nm) => nm as int,
                            Option::None => st.name,
                        },
                        Option::None => st.name,
                    },
                },
                m: Mapping {
                    generated_line: st.generated_line as u32,
                    generated_column: col,
                    original: orig,
                },
            })
        }),
{
    let ws = WriteState {
        source: st.source,
        original_line: st.original_line,
        original_column: st.original_column,
        name: st.name,
    };
    let bytes = segment_bytes(col, orig, st.generated_column, ws);
    let b1 = vlq_encode(col - st.generated_column);
    let p1 = st.pos + b1.len();
    match orig {
        Option::None => {
            assert(bytes =~= b1);
            assert(forall|j: int| 0 <= j < b1.len() ==> s[st.pos + j] == b1[j]);
            lemma_rel_read_encoded(
                s,
                st.pos,
                st.generated_column,
                col,
                col - st.generated_column,
            );
            assert(at_separator(s, p1));
        },
        Option::Some(o) => {
            let b2 = vlq_encode(o.source - st.source);
            let b3 = vlq_encode(o.original_line - st.original_line);
            let b4 = vlq_encode(o.original_column - st.original_column);
            let b5: Seq<u8> = match o.name {
                Option::None => Seq::empty(),
                Option::Some(nm) => vlq_encode(nm - st.name),
            };
            assert(bytes =~= b1 + b2 + b3 + b4 + b5);
            let p2 = p1 + b2.len();
            let p3 = p2 + b3.len();
            let p4 = p3 + b4.len();
            assert forall|j: int| 0 <= j < b1.len() implies s[st.pos + j] == b1[j] by {
                assert(s[st.pos + j] == bytes[j]);
            }
            assert forall|j: int| 0 <= j < b2.len() implies s[p1 + j] == b2[j] by {
                assert(s[st.pos + (b1.len() + j)] == bytes[b1.len() + j]);
            }
            assert forall|j: int| 0 <= j < b3.len() implies s[p2 + j] == b3[j] by {
                assert(s[st.pos + (b1.len() + b2.len() + j)] == bytes[b1.len() + b2.len() + j]);
            }
            assert forall|j: int| 0 <= j < b4.len() implies s[p3 + j] == b4[j] by {
                assert(s[st.pos + (b1.len() + b2.len() + b3.len() + j)] == bytes[b1.len()
                    + b2.len() + b3.len() + j]);
            }
            assert forall|j: int| 0 <= j < b5.len() implies s[p4 + j] == b5[j] by {
                assert(s[st.pos + (b1.len() + b2.len() + b3.len() + b4.len() + j)] == bytes[
                    b1.len() + b2.len() + b3.len() + b4.len() + j]);
            }
            lemma_rel_read_encoded(
                s,
                st.pos,
                st.generated_column,
                col,
                col - st.generated_column,
            );
            // Between the fields stands a base64 byte, never a separator.
            lemma_vlq_bytes_not_separator(zigzag(o.source - st.source) as nat);
            assert(s[p1] == b2[0]) by {
                assert(s[p1 + 0] == b2[0]);
            }
            assert(!at_separator(s, p1));
            lemma_rel_read_encoded(s, p1, st.source, o.source, o.source - st.source);
            lemma_rel_read_encoded(
                s,
                p2,
                st.original_line,
                o.original_line,
                o.original_line - st.original_line,
            );
            lemma_rel_read_encoded(
                s,
                p3,
                st.original_column,
                o.original_column,
                o.original_column - st.original_column,
            );
            match o.name {
                Option::None => {
                    assert(b5.len() == 0);
                    assert(at_separator(s, p4));
                },
                Option::Some(nm) => {
                    lemma_vlq_bytes_not_separator(zigzag(nm - st.name) as nat);
                    assert(s[p4] == b5[0]) by {
                        assert(s[p4 + 0] == b5[0]);
                    }
                    assert(!at_separator(s, p4));
                    lemma_rel_read_encoded(s, p4, st.name, nm, nm - st.name);
                    assert(at_separator(s, p4 + b5.len()));
                },
            }
        },
    }
}

/// The mappings of one line's entries from position `j` on.
pub open spec fn line_mappings(cols: Seq<ColumnEntry>, j: int, gl: u32) -> Seq<Mapping>
    decreases cols.len() - j,
{
    if j < 0 || j >= cols.len() {
        Seq::empty()
    } else {
        seq![
            Mapping {
                generated_line: gl,
                generated_column: cols[j].0,
                original: cols[j].1,
            },
        ] + line_mappings(cols, j + 1, gl)
    }
}

/// Replaying one line: parsing the bytes the writer lays down for a line's
/// entries from position `j` on yields exactly those mappings, and leaves
/// the parser just past them with the counters the writer ended on.
#[verifier::rlimit(100)]
pub proof fn lemma_line_replay(
    s: Seq<u8>,
    st: ParseState,
    cols: Seq<ColumnEntry>,
    j: int,
    gl: u32,
    src_map: Seq<int>,
    name_map: Seq<int>,
)
    requires
        0 <= st.pos,
        0 <= j,
        st.generated_line == gl as int,
        0 <= st.generated_column <= u32::MAX,
        0 <= st.source <= u32::MAX,
        0 <= st.original_line <= u32::MAX,
        0 <= st.original_column <= u32::MAX,
        0 <= st.name <= u32::MAX,
        ({
            let ws = WriteState {
                source: st.source,
                original_line: st.original_line,
                original_column: st.original_column,
                name: st.name,
            };
            let lt = line_tail(cols, j, st.generated_column, ws);
            &&& st.pos + lt.0.len() <= s.len()
            &&& (forall|q: int| 0 <= q < lt.0.len() ==> s[st.pos + q] == lt.0[q])
            &&& at_separator(s, st.pos + lt.0.len())
        }),
        forall|q: int|
            j <= q < cols.len() ==> ((#[trigger] cols[q]).1 matches Option::Some(o) ==> o.source
                < src_map.len() && src_map[o.source as int] == o.source as int && (o.name matches
            Option::Some(nm) ==> nm < name_map.len() && name_map[nm as int] == nm as int)),
    ensures
        ({
            let ws = WriteState {
                source: st.source,
                original_line: st.original_line,
                original_column: st.original_column,
                name: st.name,
            };
            let lt = line_tail(cols, j, st.generated_column, ws);
            let st2 = ParseState {
                pos: st.pos + lt.0.len(),
                generated_line: gl as int,
                generated_column: if j < cols.len() {
                    cols[cols.len() - 1].0 as int
                } else {
                    st.generated_column
                },
                source: lt.1.source,
                original_line: lt.1.original_line,
                original_column: lt.1.original_column,
                name: lt.1.name,
            };
            let rest = parse_tail(s, st2, src_map, name_map);
            parse_tail(s, st, src_map, name_map) == (ParseOut {
                mappings: line_mappings(cols, j, gl) + rest.mappings,
                error: rest.error,
            })
        }),
    decreases cols.len() - j,
{
    let ws = WriteState {
        source: st.source,
        original_line: st.original_line,
        original_column: st.original_column,
        name: st.name,
    };
    let lt = line_tail(cols, j, st.generated_column, ws);
    if j >= cols.len() {
        let rest = parse_tail(s, st, src_map, name_map);
        assert(line_mappings(cols, j, gl) + rest.mappings =~= rest.mappings);
    } else {
        let sep: Seq<u8> = if j > 0 {
            seq![COMMA]
        } else {
            Seq::<u8>::empty()
        };
        let sb = segment_bytes(cols[j].0, cols[j].1, st.generated_column, ws);
        let ws2 = segment_state(cols[j].1, ws);
        let ltr = line_tail(cols, j + 1, cols[j].0 as int, ws2);
        assert(lt.0 =~= sep + sb + ltr.0);
        assert(lt.1 == ltr.1);
        // Step over the comma, if one introduces this entry.
        let q = st.pos + sep.len();
        let stq = ParseState { pos: q, ..st };
        if j > 0 {
            assert(lt.0[0] == COMMA) by {
                assert((sep + sb + ltr.0)[0] == sep[0]);
            }
            assert(s[st.pos + 0] == lt.0[0]);
            assert(parse_tail(s, st, src_map, name_map) == parse_tail(s, stq, src_map, name_map));
        }
        assert forall|r: int| 0 <= r < sb.len() implies s[q + r] == sb[r] by {
            assert(s[st.pos + (sep.len() + r)] == lt.0[sep.len() + r]);
            assert(lt.0[sep.len() + r] == (sep + sb + ltr.0)[sep.len() + r]);
            assert((sep + sb + ltr.0)[sep.len() + r] == (sep + sb)[sep.len() + r]);
            assert((sep + sb)[sep.len() + r] == sb[r]);
        }
        // The segment's own bytes replay to its mapping.
        assert(at_separator(s, q + sb.len())) by {
            if j + 1 < cols.len() {
                let w: int = sep.len() as int + sb.len() as int;
                assert(ltr.0[0] == (if j + 1 > 0 {
                    seq![COMMA]
                } else {
                    Seq::<u8>::empty()
                } + segment_bytes(cols[j + 1].0, cols[j + 1].1, cols[j].0 as int, ws2) + line_tail(
                    cols,
                    j + 2,
                    cols[j + 1].0 as int,
                    segment_state(cols[j + 1].1, ws2),
                ).0)[0]);
                assert(ltr.0[0] == COMMA);
                assert(lt.0[w] == (sep + sb + ltr.0)[w]);
                assert((sep + sb + ltr.0)[w] == ltr.0[w - sep.len() - sb.len()]);
                assert(s[st.pos + w] == lt.0[w]);
                assert(s[q + sb.len()] == COMMA);
            } else {
                assert(ltr.0.len() == 0);
                assert(q + sb.len() == st.pos + lt.0.len());
            }
        }
        match cols[j].1 {
            Option::Some(o) => {
                assert(cols[j].1 matches Option::Some(oo) ==> oo.source < src_map.len()
                    && src_map[oo.source as int] == oo.source as int && (oo.name matches
                Option::Some(nm) ==> nm < name_map.len() && name_map[nm as int] == nm as int));
            },
            Option::None => {},
        }
        lemma_segment_round_trip(s, stq, cols[j].0, cols[j].1, src_map, name_map);
        let st3 = ParseState {
            pos: q + sb.len(),
            generated_line: gl as int,
            generated_column: cols[j].0 as int,
            source: ws2.source,
            original_line: ws2.original_line,
            original_column: ws2.original_column,
            name: ws2.name,
        };
        assert(parse_segment(s, stq, src_map, name_map) == (SegOut::Seg {
            st: st3,
            m: Mapping {
                generated_line: gl,
                generated_column: cols[j].0,
                original: cols[j].1,
            },
        }));
        // The parser is not at a separator, so it parses this segment.
        assert(!at_separator(s, q)) by {
            crate::vlq::lemma_vlq_bytes_not_separator(
                crate::vlq::zigzag(cols[j].0 - st.generated_column) as nat,
            );
            assert(s[q + 0] == sb[0]);
        }
        assert(parse_tail(s, stq, src_map, name_map) == (ParseOut {
            mappings: seq![
                Mapping {
                    generated_line: gl,
                    generated_column: cols[j].0,
                    original: cols[j].1,
                },
            ] + parse_tail(s, st3, src_map, name_map).mappings,
            error: parse_tail(s, st3, src_map, name_map).error,
        }));
        // The rest of the line replays behind it.
        assert forall|r: int| 0 <= r < ltr.0.len() implies s[st3.pos + r] == ltr.0[r] by {
            assert(s[st.pos + (sep.len() + sb.len() + r)] == lt.0[sep.len() + sb.len() + r]);
        }
        lemma_line_replay(s, st3, cols, j + 1, gl, src_map, name_map);
        let st4 = ParseState {
            pos: st3.pos + ltr.0.len(),
            generated_line: gl as int,
            generated_column: if j + 1 < cols.len() {
                cols[cols.len() - 1].0 as int
            } else {
                st3.generated_column
            },
            source: ltr.1.source,
            original_line: ltr.1.original_line,
            original_column: ltr.1.original_column,
            name: ltr.1.name,
        };
        let rest = parse_tail(s, st4, src_map, name_map);
        assert(parse_tail(s, st3, src_map, name_map) == (ParseOut {
            mappings: line_mappings(cols, j + 1, gl) + rest.mappings,
            error: rest.error,
        }));
        assert(st4.pos == st.pos + lt.0.len());
        assert(seq![
            Mapping {
                generated_line: gl,
                generated_column: cols[j].0,
                original: cols[j].1,
            },
        ] + (line_mappings(cols, j + 1, gl) + rest.mappings) =~= line_mappings(cols, j, gl)
            + rest.mappings);
    }
}

/// The mappings of every line from position `idx` on, in writing order.
pub open spec fn lines_mappings(lines: Seq<LineEntry>, idx: int) -> Seq<Mapping>
    decreases lines.len() - idx,
{
    if idx < 0 || idx >= lines.len() {
        Seq::empty()
    } else {
        line_mappings(lines[idx].1.mappings@, 0, lines[idx].0) + lines_mappings(lines, idx + 1)
    }
}

/// A run of line separators steps the line counter once per `;` and resets
/// the column counter.
proof fn lemma_semis_replay(
    s: Seq<u8>,
    st: ParseState,
    n: int,
    src_map: Seq<int>,
    name_map: Seq<int>,
)
    requires
        0 <= st.pos,
        0 <= n,
        st.pos + n <= s.len(),
        forall|q: int| st.pos <= q < st.pos + n ==> s[q] == SEMICOLON,
        0 <= st.generated_line,
        st.generated_line + n <= u32::MAX,
        n == 0 ==> st.generated_column == 0,
    ensures
        parse_tail(s, st, src_map, name_map) == parse_tail(
            s,
            ParseState {
                pos: st.pos + n,
                generated_line: st.generated_line + n,
                generated_column: 0,
                ..st
            },
            src_map,
            name_map,
        ),
    decreases n,
{
    if n == 0 {
        assert(ParseState {
            pos: st.pos + n,
            generated_line: st.generated_line + n,
            generated_column: 0,
            ..st
        } == st);
    } else {
        assert(s[st.pos] == SEMICOLON);
        let st1 = ParseState {
            pos: st.pos + 1,
            generated_line: st.generated_line + 1,
            generated_column: 0,
            ..st
        };
        assert(parse_tail(s, st, src_map, name_map) == parse_tail(s, st1, src_map, name_map));
        lemma_semis_replay(s, st1, n - 1, src_map, name_map);
    }
}

/// The writer's counters stay 32-bit values across a line.
proof fn lemma_line_tail_state_range(cols: Seq<ColumnEntry>, j: int, prev: int, ws: WriteState)
    requires
        0 <= ws.source <= u32::MAX,
        0 <= ws.original_line <= u32::MAX,
        0 <= ws.original_column <= u32::MAX,
        0 <= ws.name <= u32::MAX,
    ensures
        0 <= line_tail(cols, j, prev, ws).1.source <= u32::MAX,
        0 <= line_tail(cols, j, prev, ws).1.original_line <= u32::MAX,
        0 <= line_tail(cols, j, prev, ws).1.original_column <= u32::MAX,
        0 <= line_tail(cols, j, prev, ws).1.name <= u32::MAX,
    decreases cols.len() - j,
{
    if 0 <= j < cols.len() {
        lemma_line_tail_state_range(cols, j + 1, cols[j].0 as int, segment_state(cols[j].1, ws));
    }
}

/// Replaying the lines from position `idx` on: parsing the bytes the writer
/// lays down for them, to the end of the input, succeeds and yields exactly
/// their mappings in writing order.
#[verifier::rlimit(100)]
pub proof fn lemma_lines_replay(
    s: Seq<u8>,
    st: ParseState,
    lines: Seq<LineEntry>,
    idx: int,
    src_map: Seq<int>,
    name_map: Seq<int>,
)
    requires
        0 <= st.pos,
        0 <= idx,
        forall|i: int, i2: int| idx <= i < i2 < lines.len() ==> lines[i].0 < lines[i2].0,
        idx < lines.len() ==> st.generated_line <= lines[idx].0,
        0 <= st.generated_line,
        0 <= st.generated_column <= u32::MAX,
        0 <= st.source <= u32::MAX,
        0 <= st.original_line <= u32::MAX,
        0 <= st.original_column <= u32::MAX,
        0 <= st.name <= u32::MAX,
        idx < lines.len() && lines[idx].0 == st.generated_line ==> st.generated_column == 0,
        ({
            let ws = WriteState {
                source: st.source,
                original_line: st.original_line,
                original_column: st.original_column,
                name: st.name,
            };
            let tail = lines_tail(lines, idx, st.generated_line, ws);
            &&& st.pos + tail.len() == s.len()
            &&& (forall|q: int| 0 <= q < tail.len() ==> s[st.pos + q] == tail[q])
        }),
        forall|i: int, q: int|
            idx <= i < lines.len() && 0 <= q < lines[i].1.mappings@.len() ==> ((#[trigger] lines[
                i
            ].1.mappings@[q]).1 matches Option::Some(o) ==> o.source < src_map.len() && src_map[
                o.source as int
            ] == o.source as int && (o.name matches Option::Some(nm) ==> nm < name_map.len()
                && name_map[nm as int] == nm as int)),
    ensures
        parse_tail(s, st, src_map, name_map) == (ParseOut {
            mappings: lines_mappings(lines, idx),
            error: Option::None,
        }),
    decreases lines.len() - idx,
{
    let ws = WriteState {
        source: st.source,
        original_line: st.original_line,
        original_column: st.original_column,
        name: st.name,
    };
    let tail = lines_tail(lines, idx, st.generated_line, ws);
    if idx >= lines.len() {
        assert(tail.len() == 0);
        assert(st.pos == s.len());
        let out = parse_tail(s, st, src_map, name_map);
        assert(out.mappings =~= lines_mappings(lines, idx));
    } else {
        let gl = lines[idx].0;
        let cols = lines[idx].1.mappings@;
        let n = gl - st.generated_line;
        let semis = repeat_byte(SEMICOLON, n);
        let lt = line_tail(cols, 0, 0, ws);
        let after = lines_tail(lines, idx + 1, gl as int, lt.1);
        assert(tail =~= semis + lt.0 + after);
        assert(semis.len() == n);
        // Step over the separators onto the start of the line.
        assert forall|q: int| st.pos <= q < st.pos + n implies s[q] == SEMICOLON by {
            let r = q - st.pos;
            assert(s[st.pos + r] == tail[r]);
            assert(tail[r] == (semis + lt.0 + after)[r]);
            assert((semis + lt.0 + after)[r] == semis[r]);
        }
        lemma_semis_replay(s, st, n, src_map, name_map);
        let st1 = ParseState {
            pos: st.pos + n,
            generated_line: gl as int,
            generated_column: 0,
            ..st
        };
        // The line's own bytes replay to its mappings.
        assert forall|q: int| 0 <= q < lt.0.len() implies s[st1.pos + q] == lt.0[q] by {
            assert(s[st.pos + (n + q)] == tail[n + q]);
            assert(tail[n + q] == (semis + lt.0 + after)[n + q]);
            assert((semis + lt.0 + after)[n + q] == (semis + lt.0)[n + q]);
            assert((semis + lt.0)[n + q] == lt.0[q]);
        }
        assert(at_separator(s, st1.pos + lt.0.len())) by {
            if idx + 1 < lines.len() {
                let n2 = lines[idx + 1].0 - gl;
                assert(n2 >= 1);
                assert(after[0] == (repeat_byte(SEMICOLON, n2) + line_tail(
                    lines[idx + 1].1.mappings@,
                    0,
                    0,
                    lt.1,
                ).0 + lines_tail(
                    lines,
                    idx + 2,
                    lines[idx + 1].0 as int,
                    line_tail(lines[idx + 1].1.mappings@, 0, 0, lt.1).1,
                ))[0]);
                assert(after[0] == repeat_byte(SEMICOLON, n2)[0]);
                let w: int = n + lt.0.len() as int;
                assert(s[st.pos + w] == tail[w]);
                assert(tail[w] == (semis + lt.0 + after)[w]);
                assert((semis + lt.0 + after)[w] == after[w - n - lt.0.len()]);
            } else {
                assert(after.len() == 0);
                assert(st1.pos + lt.0.len() == s.len());
            }
        }
        assert forall|q: int|
            0 <= q < cols.len() implies ((#[trigger] cols[q]).1 matches Option::Some(o)
            ==> o.source < src_map.len() && src_map[o.source as int] == o.source as int && (o.name
        matches Option::Some(nm) ==> nm < name_map.len() && name_map[nm as int]
            == nm as int)) by {
            assert(idx <= idx < lines.len() && 0 <= q < lines[idx].1.mappings@.len() ==> ((lines[
                idx
            ].1.mappings@[q]).1 matches Option::Some(o) ==> o.source < src_map.len() && src_map[
                o.source as int
            ] == o.source as int && (o.name matches Option::Some(nm) ==> nm < name_map.len()
                && name_map[nm as int] == nm as int)));
        }
        lemma_line_replay(s, st1, cols, 0, gl, src_map, name_map);
        let st2 = ParseState {
            pos: st1.pos + lt.0.len(),
            generated_line: gl as int,
            generated_column: if 0 < cols.len() {
                cols[cols.len() - 1].0 as int
            } else {
                0
            },
            source: lt.1.source,
            original_line: lt.1.original_line,
            original_column: lt.1.original_column,
            name: lt.1.name,
        };
        let rest = parse_tail(s, st2, src_map, name_map);
        assert(parse_tail(s, st1, src_map, name_map) == (ParseOut {
            mappings: line_mappings(cols, 0, gl) + rest.mappings,
            error: rest.error,
        }));
        // The remaining lines replay behind this one.
        assert forall|q: int| 0 <= q < after.len() implies s[st2.pos + q] == after[q] by {
            let w: int = n + lt.0.len() as int + q;
            assert(s[st.pos + w] == tail[w]);
            assert(tail[w] == (semis + lt.0 + after)[w]);
            assert((semis + lt.0 + after)[w] == after[w - n - lt.0.len()]);
        }
        lemma_line_tail_state_range(cols, 0, 0, ws);
        lemma_lines_replay(s, st2, lines, idx + 1, src_map, name_map);
        assert(line_mappings(cols, 0, gl) + lines_mappings(lines, idx + 1) =~= lines_mappings(
            lines,
            idx,
        ));
    }
}

/// The codec round trip: the `mappings` string a map writes for itself
/// parses without error, and carries back exactly the map's mappings, line
/// by line and column by column, when the index tables translate every
/// stored index to itself.
pub proof fn lemma_codec_round_trip(lines: Seq<LineEntry>, src_map: Seq<int>, name_map: Seq<int>)
    requires
        forall|i: int, i2: int| 0 <= i < i2 < lines.len() ==> lines[i].0 < lines[i2].0,
        forall|i: int, q: int|
            0 <= i < lines.len() && 0 <= q < lines[i].1.mappings@.len() ==> ((#[trigger] lines[
                i
            ].1.mappings@[q]).1 matches Option::Some(o) ==> o.source < src_map.len() && src_map[
                o.source as int
            ] == o.source as int && (o.name matches Option::Some(nm) ==> nm < name_map.len()
                && name_map[nm as int] == nm as int)),
    ensures
        parse_tail(serialized(lines), fresh_parse_state(), src_map, name_map) == (ParseOut {
            mappings: lines_mappings(lines, 0),
            error: Option::None,
        }),
{
    let s = serialized(lines);
    assert(forall|q: int| 0 <= q < s.len() ==> s[0 + q] == #[trigger] s[q]);
    lemma_lines_replay(s, fresh_parse_state(), lines, 0, src_map, name_map);
}

/// Applying a concatenation of mapping lists is applying one after the
/// other.
pub proof fn lemma_apply_mappings_concat(
    m: Map<u32, Map<u32, Option<OriginalLocation>>>,
    a: Seq<Mapping>,
    b: Seq<Mapping>,
)
    ensures
        apply_mappings(m, a + b) == apply_mappings(apply_mappings(m, a), b),
    decreases a.len(),
{
    if a.len() == 0 {
        assert(a + b =~= b);
    } else {
        assert((a + b).first() == a.first());
        assert((a + b).drop_first() =~= a.drop_first() + b);
        lemma_apply_mappings_concat(mapping_insert(m, a.first()), a.drop_first(), b);
    }
}

/// The column map reached by laying a line's entries into `cm`, first to
/// last.
pub open spec fn cols_fold(
    cm: Map<u32, Option<OriginalLocation>>,
    cols: Seq<ColumnEntry>,
    j: int,
) -> Map<u32, Option<OriginalLocation>>
    decreases cols.len() - j,
{
    if j < 0 || j >= cols.len() {
        cm
    } else {
        cols_fold(cm.insert(cols[j].0, cols[j].1), cols, j + 1)
    }
}

/// Laying duplicate-free entries into a column map lays their own map over
/// it.
proof fn lemma_cols_fold_union(
    cm: Map<u32, Option<OriginalLocation>>,
    cols: Seq<ColumnEntry>,
    j: int,
)
    requires
        0 <= j,
        keyed_wf(cols),
    ensures
        cols_fold(cm, cols, j) == cm.union_prefer_right(
            keyed_model(cols.subrange(if j <= cols.len() {
                j
            } else {
                cols.len() as int
            }, cols.len() as int)),
        ),
    decreases cols.len() - j,
{
    if j >= cols.len() {
        let sub = cols.subrange(cols.len() as int, cols.len() as int);
        assert(sub.len() == 0);
        assert(cols_fold(cm, cols, j) =~= cm.union_prefer_right(keyed_model(sub)));
    } else {
        let sub = cols.subrange(j, cols.len() as int);
        let sub2 = cols.subrange(j + 1, cols.len() as int);
        assert(keyed_wf(sub)) by {
            assert(forall|q: int| 0 <= q < sub.len() ==> sub[q] == cols[j + q]);
        }
        assert(keyed_wf(sub2)) by {
            assert(forall|q: int| 0 <= q < sub2.len() ==> sub2[q] == cols[j + 1 + q]);
        }
        lemma_cols_fold_union(cm.insert(cols[j].0, cols[j].1), cols, j + 1);
        lemma_keyed_model(sub);
        lemma_keyed_model(sub2);
        assert(cols_fold(cm, cols, j) =~= cm.union_prefer_right(keyed_model(sub))) by {
            let lhs = cm.insert(cols[j].0, cols[j].1).union_prefer_right(keyed_model(sub2));
            assert(cols_fold(cm, cols, j) == lhs);
            assert forall|k: u32| #[trigger] lhs.dom().contains(k) implies cm.union_prefer_right(
                keyed_model(sub),
            ).dom().contains(k) && cm.union_prefer_right(keyed_model(sub))[k] == lhs[k] by {
                if keyed_model(sub2).dom().contains(k) {
                    let q = choose|q: int| 0 <= q < sub2.len() && sub2[q].0 == k;
                    assert(sub2[q] == cols[j + 1 + q]);
                    assert(sub[q + 1] == cols[j + 1 + q]);
                    assert(keyed_model(sub).dom().contains(k) && keyed_model(sub)[k] == sub[q
                        + 1].1);
                } else if k == cols[j].0 {
                    assert(sub[0] == cols[j]);
                    assert(keyed_model(sub).dom().contains(k) && keyed_model(sub)[k] == cols[j].1);
                    assert(!keyed_model(sub2).dom().contains(k));
                } else {
                    assert(cm.dom().contains(k));
                    assert(!keyed_model(sub).dom().contains(k)) by {
                        if keyed_model(sub).dom().contains(k) {
                            let q = choose|q: int| 0 <= q < sub.len() && sub[q].0 == k;
                            assert(sub[q] == cols[j + q]);
                            if q > 0 {
                                assert(sub2[q - 1] == cols[j + q]);
                                assert(keyed_model(sub2).dom().contains(k));
                            }
                        }
                    }
                }
            }
            assert forall|k: u32| cm.union_prefer_right(keyed_model(sub)).dom().contains(
                k,
            ) implies #[trigger] lhs.dom().contains(k) by {
                if keyed_model(sub).dom().contains(k) {
                    let q = choose|q: int| 0 <= q < sub.len() && sub[q].0 == k;
                    assert(sub[q] == cols[j + q]);
                    if q == 0 {
                        assert(cm.insert(cols[j].0, cols[j].1).dom().contains(k));
                    } else {
                        assert(sub2[q - 1] == cols[j + q]);
                        assert(keyed_model(sub2).dom().contains(k));
                    }
                }
            }
        }
    }
}

/// Laying one line's mappings into a model sets that line and nothing else.
proof fn lemma_line_apply(
    m: Map<u32, Map<u32, Option<OriginalLocation>>>,
    cols: Seq<ColumnEntry>,
    j: int,
    gl: u32,
)
    requires
        0 <= j,
    ensures
        apply_mappings(m, line_mappings(cols, j, gl)) == (if j < cols.len() {
            m.insert(
                gl,
                cols_fold(
                    if m.dom().contains(gl) {
                        m[gl]
                    } else {
                        Map::<u32, Option<OriginalLocation>>::empty()
                    },
                    cols,
                    j,
                ),
            )
        } else {
            m
        }),
    decreases cols.len() - j,
{
    if j < cols.len() {
        let mp = Mapping { generated_line: gl, generated_column: cols[j].0, original: cols[j].1 };
        let lm = line_mappings(cols, j, gl);
        assert(lm.first() == mp);
        assert(lm.drop_first() =~= line_mappings(cols, j + 1, gl));
        let m2 = mapping_insert(m, mp);
        lemma_line_apply(m2, cols, j + 1, gl);
        let base: Map<u32, Option<OriginalLocation>> = if m.dom().contains(gl) {
            m[gl]
        } else {
            Map::<u32, Option<OriginalLocation>>::empty()
        };
        assert(m2 == m.insert(gl, base.insert(cols[j].0, cols[j].1)));
        assert(m2[gl] == base.insert(cols[j].0, cols[j].1));
        if j + 1 < cols.len() {
            assert(apply_mappings(m, lm) == m2.insert(gl, cols_fold(m2[gl], cols, j + 1)));
            assert(cols_fold(m2[gl], cols, j + 1) == cols_fold(base, cols, j));
            assert(m2.insert(gl, cols_fold(base, cols, j)) =~= m.insert(
                gl,
                cols_fold(base, cols, j),
            ));
        } else {
            assert(apply_mappings(m, lm) == m2);
            assert(cols_fold(base, cols, j) == cols_fold(base.insert(cols[j].0, cols[j].1), cols, j
                + 1));
            assert(m2 =~= m.insert(gl, cols_fold(base, cols, j)));
        }
    }
}

/// Laying every line's mappings into a model, line by line, builds the
/// lines' own two-level model over it.
proof fn lemma_lines_apply(
    m: Map<u32, Map<u32, Option<OriginalLocation>>>,
    lines: Seq<LineEntry>,
    idx: int,
)
    requires
        0 <= idx,
        forall|i: int, i2: int| idx <= i < i2 < lines.len() ==> lines[i].0 < lines[i2].0,
        forall|i: int| idx <= i < lines.len() ==> (#[trigger] lines[i].1).wf(),
        forall|i: int| idx <= i < lines.len() ==> (#[trigger] lines[i].1).mappings@.len() > 0,
        forall|i: int| idx <= i < lines.len() ==> !m.dom().contains((#[trigger] lines[i]).0),
    ensures
        apply_mappings(m, lines_mappings(lines, idx)) == m.union_prefer_right(
            lines_model(lines.subrange(if idx <= lines.len() {
                idx
            } else {
                lines.len() as int
            }, lines.len() as int)),
        ),
    decreases lines.len() - idx,
{
    if idx >= lines.len() {
        let sub = lines.subrange(lines.len() as int, lines.len() as int);
        assert(sub.len() == 0);
        assert(apply_mappings(m, lines_mappings(lines, idx)) =~= m.union_prefer_right(
            lines_model(sub),
        ));
    } else {
        let gl = lines[idx].0;
        let cols = lines[idx].1.mappings@;
        lemma_apply_mappings_concat(m, line_mappings(cols, 0, gl), lines_mappings(lines, idx + 1));
        lemma_line_apply(m, cols, 0, gl);
        assert(!m.dom().contains(gl));
        lemma_cols_fold_union(Map::<u32, Option<OriginalLocation>>::empty(), cols, 0);
        assert(cols.subrange(0, cols.len() as int) =~= cols);
        assert(cols_fold(Map::<u32, Option<OriginalLocation>>::empty(), cols, 0) =~= keyed_model(
            cols,
        ));
        let m2 = m.insert(gl, keyed_model(cols));
        assert(apply_mappings(m, line_mappings(cols, 0, gl)) == m2);
        lemma_lines_apply(m2, lines, idx + 1);
        let sub = lines.subrange(idx, lines.len() as int);
        let sub2 = lines.subrange(idx + 1, lines.len() as int);
        assert(forall|q: int| 0 <= q < sub.len() ==> sub[q] == lines[idx + q]);
        assert(forall|q: int| 0 <= q < sub2.len() ==> sub2[q] == lines[idx + 1 + q]);
        assert(keyed_wf(sub));
        assert(keyed_wf(sub2));
        lemma_keyed_model(sub);
        lemma_keyed_model(sub2);
        assert(m2.union_prefer_right(lines_model(sub2)) =~= m.union_prefer_right(
            lines_model(sub),
        )) by {
            assert forall|k: u32| #[trigger] m2.union_prefer_right(lines_model(sub2)).dom()
                .contains(k) implies m.union_prefer_right(lines_model(sub)).dom().contains(k)
                && m.union_prefer_right(lines_model(sub))[k] == m2.union_prefer_right(
                lines_model(sub2),
            )[k] by {
                if lines_model(sub2).dom().contains(k) {
                    let q = choose|q: int| 0 <= q < sub2.len() && sub2[q].0 == k;
                    assert(sub[q + 1] == sub2[q]);
                    assert(lines_model(sub).dom().contains(k) && lines_model(sub)[k] == sub[q
                        + 1].1.model());
                } else if k == gl {
                    assert(sub[0] == lines[idx]);
                    assert(lines_model(sub).dom().contains(k) && lines_model(sub)[k]
                        == keyed_model(cols));
                    assert(!lines_model(sub2).dom().contains(k));
                } else {
                    assert(m.dom().contains(k));
                    assert(!lines_model(sub).dom().contains(k)) by {
                        if keyed_model(sub).dom().contains(k) {
                            let q = choose|q: int| 0 <= q < sub.len() && sub[q].0 == k;
                            if q > 0 {
                                assert(sub2[q - 1] == sub[q]);
                                assert(keyed_model(sub2).dom().contains(k));
                            }
                        }
                    }
                }
            }
            assert forall|k: u32| m.union_prefer_right(lines_model(sub)).dom().contains(
                k,
            ) implies #[trigger] m2.union_prefer_right(lines_model(sub2)).dom().contains(k) by {
                if lines_model(sub).dom().contains(k) {
                    let q = choose|q: int| 0 <= q < sub.len() && sub[q].0 == k;
                    if q == 0 {
                        assert(m2.dom().contains(k));
                    } else {
                        assert(sub2[q - 1] == sub[q]);
                        assert(keyed_model(sub2).dom().contains(k));
                    }
                }
            }
        }
    }
}

/// Laying the parsed mappings of a whole map into an empty index rebuilds
/// exactly the index they came from: with `lemma_codec_round_trip`, reading
/// a map's own mappings string into a fresh map reproduces the map.
pub proof fn lemma_mappings_rebuild(lines: Seq<LineEntry>)
    requires
        forall|i: int, i2: int| 0 <= i < i2 < lines.len() ==> lines[i].0 < lines[i2].0,
        forall|i: int| 0 <= i < lines.len() ==> (#[trigger] lines[i].1).wf(),
        forall|i: int| 0 <= i < lines.len() ==> (#[trigger] lines[i].1).mappings@.len() > 0,
    ensures
        apply_mappings(
            Map::<u32, Map<u32, Option<OriginalLocation>>>::empty(),
            lines_mappings(lines, 0),
        ) == lines_model(lines),
{
    let m0 = Map::<u32, Map<u32, Option<OriginalLocation>>>::empty();
    lemma_lines_apply(m0, lines, 0);
    assert(lines.subrange(0, lines.len() as int) =~= lines);
    assert(m0.union_prefer_right(lines_model(lines)) =~= lines_model(lines));
}

} // verus!
