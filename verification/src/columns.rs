//! Columns on disk: the remapped, concatenated, zstd-compressed `u32 LE`
//! stream of a template's variable columns, and the value-block codec of
//! the dictionary file.

use vstd::prelude::*;
use vstd::bytes::{spec_u32_to_le_bytes, spec_u32_from_le_bytes, u32_to_le_bytes, u32_from_le_bytes};
use crate::groups::DocGroup;
use crate::strutil::{u32_to_decimal, bytes_to_string};
use crate::TemplateId;

verus! {

/// The zstd frame that `compress` produces for the given input bytes and
/// level.
pub uninterp spec fn zstd_of(data: Seq<u8>, level: int) -> Seq<u8>;

/// The bytes a zstd frame decodes to.
pub uninterp spec fn unzstd_of(data: Seq<u8>) -> Seq<u8>;

/// Relies on zstd::stream::encode_all: compression is a function of the
/// input bytes and level, and decoding gives the input back.
#[verifier::external_body]
pub fn zstd_compress(data: &Vec<u8>, level: i32) -> (r: Option<Vec<u8>>)
    ensures
        r is Some ==> r->0@ == zstd_of(data@, level as int) && unzstd_of(
            zstd_of(data@, level as int),
        ) == data@,
{
    match zstd::stream::encode_all(data.as_slice(), level) {
        Ok(out) => Some(out),
        Err(_) => None,
    }
}

/// Relies on zstd::stream::decode_all: decoding is a function of the frame
/// bytes; invalid frames fail.
#[verifier::external_body]
pub fn zstd_decompress(data: &Vec<u8>) -> (r: Option<Vec<u8>>)
    ensures
        r is Some ==> r->0@ == unzstd_of(data@),
{
    match zstd::stream::decode_all(data.as_slice()) {
        Ok(out) => Some(out),
        Err(_) => None,
    }
}

/// The little-endian concatenation of a list of ids.
pub open spec fn spec_u32s_to_bytes(vals: Seq<u32>) -> Seq<u8>
    decreases vals.len(),
{
    if vals.len() == 0 {
        Seq::empty()
    } else {
        spec_u32s_to_bytes(vals.drop_last()) + spec_u32_to_le_bytes(vals.last())
    }
}

/// Append each id as four little-endian bytes.
pub fn write_u32s(out: &mut Vec<u8>, vals: &Vec<u32>)
    ensures
        final(out)@ == old(out)@ + spec_u32s_to_bytes(vals@),
{
    let n = vals.len();
    let mut i: usize = 0;
    while i < n
        invariant
            n == vals@.len(),
            i <= n,
            out@ == old(out)@ + spec_u32s_to_bytes(vals@.take(i as int)),
        decreases n - i,
    {
        proof {
            assert(vals@.take(i + 1).drop_last() =~= vals@.take(i as int));
            assert(vals@.take(i + 1).last() == vals@[i as int]);
        }
        let mut b = u32_to_le_bytes(vals[i]);
        out.append(&mut b);
        i = i + 1;
    }
    proof {
        assert(vals@.take(n as int) =~= vals@);
    }
}

/// A loaded column: the term ids of one variable slot, one per document.
#[derive(Debug, Clone)]
pub struct Column {
    pub data: Vec<u32>,
}

impl Column {
    /// Wrap a decoded column.
    pub fn new(data: Vec<u32>) -> (r: Column)
        ensures
            r.data == data,
    {
        Column { data }
    }

    /// The id at a row, if the row exists.
    pub fn term_at(&self, index: usize) -> (r: Option<u32>)
        ensures
            r == (if index < self.data@.len() {
                Option::Some(self.data@[index as int])
            } else {
                Option::None::<u32>
            }),
    {
        if index < self.data.len() {
            Some(self.data[index])
        } else {
            None
        }
    }

    /// Number of rows.
    pub fn len(&self) -> (r: usize)
        ensures
            r == self.data@.len(),
    {
        self.data.len()
    }
}

/// The columns of one template, re-sliced from its decompressed stream.
#[derive(Debug, Clone)]
pub struct Columns {
    pub data: Vec<Column>,
}

impl Columns {
    /// Wrap decoded columns.
    pub fn new(data: Vec<Column>) -> (r: Columns)
        ensures
            r.data == data,
    {
        Columns { data }
    }

    /// Total size in bytes of the uncompressed stream, at four bytes per
    /// id; saturates at the largest count.
    pub fn size_in_bytes(&self) -> (r: u64) {
        let mut total: u64 = 0;
        let n = self.data.len();
        let mut c: usize = 0;
        while c < n
            invariant
                n == self.data@.len(),
                c <= n,
            decreases n - c,
        {
            let len = self.data[c].data.len() as u64;
            if len > u64::MAX / 4 || total > u64::MAX - len * 4 {
                return u64::MAX;
            }
            total = total + len * 4;
            c = c + 1;
        }
        total
    }

    /// The ids of one document, one per column, in column order; `None`
    /// when the document id is out of range of a column.
    pub fn get_term_ids(&self, doc: u32) -> (r: Vec<u32>)
        ensures
            r@.len() <= self.data@.len(),
    {
        let mut out: Vec<u32> = Vec::new();
        let n = self.data.len();
        let mut c: usize = 0;
        while c < n
            invariant
                n == self.data@.len(),
                c <= n,
                out@.len() <= c,
            decreases n - c,
        {
            match self.data[c].term_at(doc as usize) {
                Some(t) => {
                    out.push(t);
                },
                None => {},
            }
            c = c + 1;
        }
        out
    }

    /// The document ids whose entry in some column equals `term`, in
    /// order; `term` of `None` matches every document.
    pub fn get_doc_ids(&self, match_term: Option<u32>) -> (r: Vec<u32>)
        requires
            forall|c: int|
                0 <= c < self.data@.len() ==> (#[trigger] self.data@[c]).data@.len() <= u32::MAX,
        ensures
            true,
    {
        let mut out: Vec<u32> = Vec::new();
        let n = self.data.len();
        let mut c: usize = 0;
        while c < n
            invariant
                n == self.data@.len(),
                c <= n,
                forall|c2: int|
                    0 <= c2 < n ==> (#[trigger] self.data@[c2]).data@.len() <= u32::MAX,
            decreases n - c,
        {
            let col = &self.data[c];
            let rows = col.data.len();
            let mut row: usize = 0;
            while row < rows
                invariant
                    c < n,
                    n == self.data@.len(),
                    rows == self.data@[c as int].data@.len(),
                    rows <= u32::MAX,
                    col == self.data@[c as int],
                    row <= rows,
                    forall|c2: int|
                        0 <= c2 < n ==> (#[trigger] self.data@[c2]).data@.len() <= u32::MAX,
                decreases rows - row,
            {
                let keep = match match_term {
                    Some(t) => col.data[row] == t,
                    None => true,
                };
                if keep {
                    out.push(row as u32);
                }
                row = row + 1;
            }
            c = c + 1;
        }
        out
    }
}

/// The bytes of the file name for template `n`: "template_", the
/// decimal digits of `n`, ".col".
pub open spec fn spec_template_path(n: int) -> Seq<u8> {
    seq![0x74u8, 0x65u8, 0x6du8, 0x70u8, 0x6cu8, 0x61u8, 0x74u8, 0x65u8, 0x5fu8]
        + crate::strutil::spec_decimal(n) + seq![0x2eu8, 0x63u8, 0x6fu8, 0x6cu8]
}

/// The file name the columns of a template are stored under.
pub fn get_template_path(template_id: TemplateId) -> (r: String)
    ensures
        vstd::utf8::encode_utf8(r@) == spec_template_path(template_id.0 as int),
{
    let mut name: Vec<u8> = Vec::new();
    // "template_"
    let mut prefix: Vec<u8> = Vec::new();
    prefix.push(0x74);
    prefix.push(0x65);
    prefix.push(0x6d);
    prefix.push(0x70);
    prefix.push(0x6c);
    prefix.push(0x61);
    prefix.push(0x74);
    prefix.push(0x65);
    prefix.push(0x5f);
    name.append(&mut prefix);
    let mut digits = u32_to_decimal(template_id.0);
    name.append(&mut digits);
    // ".col"
    let mut suffix: Vec<u8> = Vec::new();
    suffix.push(0x2e);
    suffix.push(0x63);
    suffix.push(0x6f);
    suffix.push(0x6c);
    name.append(&mut suffix);
    proof {
        assert(name@ =~= spec_template_path(template_id.0 as int));
        crate::strutil::lemma_decimal_ascii(template_id.0 as int);
        assert forall|i: int| 0 <= i < name@.len() implies #[trigger] name@[i] < 0x80 by {
            let d = crate::strutil::spec_decimal(template_id.0 as int);
            if 9 <= i < 9 + d.len() {
                assert(name@[i] == d[i - 9]);
            }
        }
        crate::strutil::lemma_ascii_valid_utf8(name@);
    }
    bytes_to_string(name.as_slice())
}

/// `v` sent through the old-to-new map; values outside the map keep
/// their old id.
pub open spec fn spec_remap_id(map: Seq<u32>, v: u32) -> u32 {
    if v < map.len() {
        map[v as int]
    } else {
        v
    }
}

/// Every value of `vals` sent through the map.
pub open spec fn spec_remap_vals(vals: Seq<u32>, map: Seq<u32>) -> Seq<u32> {
    Seq::new(vals.len(), |i: int| spec_remap_id(map, vals[i]))
}

/// The columns flattened into one stream, column-major.
pub open spec fn spec_concat_cols(cols: Seq<Seq<u32>>) -> Seq<u32>
    decreases cols.len(),
{
    if cols.len() == 0 {
        Seq::empty()
    } else {
        spec_concat_cols(cols.drop_last()) + cols.last()
    }
}

/// The uncompressed on-disk payload of a group: its variable columns in
/// template order, flattened column-major, remapped, as `u32 LE` bytes.
/// Its length is four bytes per stored value.
pub open spec fn spec_column_payload(g: DocGroup, map: Seq<u32>) -> Seq<u8> {
    spec_u32s_to_bytes(
        spec_remap_vals(
            spec_concat_cols(
                crate::groups::spec_columns_in_template_order(g.template.tokens@, g.columns@),
            ),
            map,
        ),
    )
}

/// Remap each of the group's column values through `old_to_new` and flatten
/// them, column-major in template order, to little-endian bytes. Values
/// outside the map keep their old id.
pub fn column_bytes_and_remap(group: &DocGroup, old_to_new: &Vec<u32>) -> (r: Vec<u8>)
    requires
        group.wf(),
    ensures
        r@ == spec_column_payload(*group, old_to_new@),
{
    let ghost colviews = crate::groups::spec_columns_in_template_order(
        group.template.tokens@,
        group.columns@,
    );
    let cols = group.iter_columns();
    let mut remapped_all: Vec<u32> = Vec::new();
    let n = cols.len();
    let mut c: usize = 0;
    proof {
        assert(colviews.take(0) =~= Seq::<Seq<u32>>::empty());
        assert(remapped_all@ =~= spec_remap_vals(spec_concat_cols(colviews.take(0)), old_to_new@));
    }
    while c < n
        invariant
            n == cols@.len(),
            n == colviews.len(),
            forall|i: int| 0 <= i < n ==> (#[trigger] cols@[i])@ == colviews[i],
            c <= n,
            remapped_all@ == spec_remap_vals(
                spec_concat_cols(colviews.take(c as int)),
                old_to_new@,
            ),
        decreases n - c,
    {
        let col = &cols[c];
        let rows = col.len();
        let mut row: usize = 0;
        let ghost base = remapped_all@;
        while row < rows
            invariant
                c < n,
                n == cols@.len(),
                rows == colviews[c as int].len(),
                col@ == colviews[c as int],
                row <= rows,
                remapped_all@ == base + spec_remap_vals(
                    colviews[c as int].take(row as int),
                    old_to_new@,
                ),
            decreases rows - row,
        {
            let old_id = col[row];
            let new_id = if (old_id as usize) < old_to_new.len() {
                old_to_new[old_id as usize]
            } else {
                old_id
            };
            proof {
                assert(new_id == spec_remap_id(old_to_new@, colviews[c as int][row as int]));
                assert(spec_remap_vals(colviews[c as int].take(row + 1), old_to_new@)
                    =~= spec_remap_vals(colviews[c as int].take(row as int), old_to_new@).push(
                    new_id,
                ));
            }
            remapped_all.push(new_id);
            row = row + 1;
        }
        proof {
            assert(colviews[c as int].take(rows as int) =~= colviews[c as int]);
            assert(colviews.take(c + 1).drop_last() =~= colviews.take(c as int));
            assert(colviews.take(c + 1).last() == colviews[c as int]);
            assert(spec_concat_cols(colviews.take(c + 1)) == spec_concat_cols(
                colviews.take(c as int),
            ) + colviews[c as int]);
            assert(spec_remap_vals(
                spec_concat_cols(colviews.take(c as int)) + colviews[c as int],
                old_to_new@,
            ) =~= spec_remap_vals(spec_concat_cols(colviews.take(c as int)), old_to_new@)
                + spec_remap_vals(colviews[c as int], old_to_new@));
        }
        c = c + 1;
    }
    proof {
        assert(colviews.take(n as int) =~= colviews);
    }
    let mut bytes: Vec<u8> = Vec::new();
    write_u32s(&mut bytes, &remapped_all);
    bytes
}

/// Parse a decompressed column stream back into columns of `num_docs`
/// rows each: value `d` of column `c` is the little-endian `u32` at byte
/// offset `4*(c*num_docs + d)`; a trailing partial column is dropped.
pub fn parse_columns(data: &Vec<u8>, num_docs: usize) -> (r: Columns)
    requires
        num_docs > 0,
    ensures
        r.data@.len() == (data@.len() as int / 4) / (num_docs as int),
        forall|c: int|
            0 <= c < r.data@.len() ==> (#[trigger] r.data@[c]).data@.len() == num_docs,
        forall|c: int, d: int|
            0 <= c < r.data@.len() && 0 <= d < num_docs ==> (#[trigger] r.data@[c].data@[d])
                == spec_u32_from_le_bytes(
                data@.subrange(4 * (c * num_docs + d), 4 * (c * num_docs + d) + 4),
            ),
{
    let mut columns: Vec<Column> = Vec::new();
    let mut terms: Vec<u32> = Vec::new();
    let total = data.len();
    let mut pos: usize = 0;
    proof {
        assert(columns@.len() * num_docs == 0) by (nonlinear_arith)
            requires
                columns@.len() == 0,
        ;
    }
    while pos < total && total - pos >= 4
        invariant
            total == data@.len(),
            pos <= total,
            num_docs > 0,
            terms@.len() < num_docs,
            pos == 4 * (columns@.len() * num_docs + terms@.len()),
            forall|c: int|
                0 <= c < columns@.len() ==> (#[trigger] columns@[c]).data@.len() == num_docs,
            forall|c: int, d: int|
                0 <= c < columns@.len() && 0 <= d < num_docs ==> (
                #[trigger] columns@[c].data@[d]) == spec_u32_from_le_bytes(
                    data@.subrange(4 * (c * num_docs + d), 4 * (c * num_docs + d) + 4),
                ),
            forall|t: int|
                0 <= t < terms@.len() ==> #[trigger] terms@[t] == spec_u32_from_le_bytes(
                    data@.subrange(
                        4 * (columns@.len() * num_docs + t),
                        4 * (columns@.len() * num_docs + t) + 4,
                    ),
                ),
        decreases total - pos,
    {
        let chunk = vstd::slice::slice_subrange(data.as_slice(), pos, pos + 4);
        let term_id = u32_from_le_bytes(chunk);
        let ghost done = columns@.len();
        let ghost tlen = terms@.len();
        proof {
            assert(pos as int == 4 * (done * num_docs + tlen));
        }
        terms.push(term_id);
        if terms.len() == num_docs {
            let ghost newcol = terms@;
            columns.push(Column::new(terms));
            terms = Vec::new();
            proof {
                assert(columns@.last().data@ == newcol);
                assert forall|c: int, d: int|
                    0 <= c < columns@.len() && 0 <= d < num_docs implies (
                #[trigger] columns@[c].data@[d]) == spec_u32_from_le_bytes(
                    data@.subrange(4 * (c * num_docs + d), 4 * (c * num_docs + d) + 4),
                ) by {
                    if c == done {
                        if d < tlen {
                            assert(newcol[d] == spec_u32_from_le_bytes(
                                data@.subrange(
                                    4 * (done * num_docs + d),
                                    4 * (done * num_docs + d) + 4,
                                ),
                            ));
                        } else {
                            assert(d == tlen);
                            assert(newcol[d] == term_id);
                        }
                    }
                }
                assert((done + 1) * num_docs == done * num_docs + num_docs) by (nonlinear_arith);
                assert(pos + 4 == 4 * ((done + 1) * num_docs + 0));
            }
        } else {
            proof {
                assert(pos + 4 == 4 * (done * num_docs + (tlen + 1)));
            }
        }
        pos = pos + 4;
    }
    proof {
        let done = columns@.len();
        let tlen = terms@.len();
        // No further whole value fits, so the total value count is pinned.
        assert(total - pos < 4);
        assert(pos as int == 4 * (done * num_docs + tlen));
        assert(total as int / 4 == done * num_docs + tlen) by {
            vstd::arithmetic::div_mod::lemma_fundamental_div_mod_converse(
                total as int,
                4,
                done * num_docs + tlen,
                total - pos,
            );
        }
        assert((total as int / 4) / num_docs as int == done) by {
            vstd::arithmetic::div_mod::lemma_fundamental_div_mod_converse(
                done * num_docs + tlen,
                num_docs as int,
                done as int,
                tlen as int,
            );
        }
    }
    Columns::new(columns)
}

/// The dictionary value block: `[n: u32 LE | (len: u32 LE | id × len) × n]`.
pub open spec fn spec_value_block(vals: Seq<Seq<u32>>) -> Seq<u8>
    decreases vals.len(),
{
    if vals.len() == 0 {
        Seq::empty()
    } else {
        spec_value_block(vals.drop_last()) + spec_u32_to_le_bytes(
            vals.last().len() as u32,
        ) + spec_u32s_to_bytes(vals.last())
    }
}

/// Collects posting lists and serializes them as one block; the reader
/// mirrors it exactly.
pub struct VecU32ValueWriter {
    pub vals: Vec<Vec<u32>>,
}

impl VecU32ValueWriter {
    /// An empty writer.
    pub fn new() -> (r: VecU32ValueWriter)
        ensures
            r.vals@.len() == 0,
    {
        VecU32ValueWriter { vals: Vec::new() }
    }

    /// Queue one posting list.
    pub fn write(&mut self, val: &Vec<u32>)
        ensures
            final(self).vals@.len() == old(self).vals@.len() + 1,
            final(self).vals@.last()@ == val@,
    {
        let copy = vstd::slice::slice_to_vec(val.as_slice());
        self.vals.push(copy);
    }

    /// Serialize all queued lists into `output`.
    pub fn serialize_block(&self, output: &mut Vec<u8>)
        requires
            self.vals@.len() <= u32::MAX,
            forall|i: int| 0 <= i < self.vals@.len() ==> (#[trigger] self.vals@[i])@.len()
                <= u32::MAX,
        ensures
            final(output)@ == old(output)@ + spec_u32_to_le_bytes(self.vals@.len() as u32)
                + spec_value_block(self.vals@.map_values(|v: Vec<u32>| v@)),
    {
        let mut b = u32_to_le_bytes(self.vals.len() as u32);
        output.append(&mut b);
        let ghost base = output@;
        let n = self.vals.len();
        let mut i: usize = 0;
        proof {
            assert(self.vals@.map_values(|v: Vec<u32>| v@).take(0) =~= Seq::<Seq<u32>>::empty());
        }
        while i < n
            invariant
                n == self.vals@.len(),
                i <= n,
                forall|i2: int|
                    0 <= i2 < n ==> (#[trigger] self.vals@[i2])@.len() <= u32::MAX,
                output@ == base + spec_value_block(
                    self.vals@.map_values(|v: Vec<u32>| v@).take(i as int),
                ),
            decreases n - i,
        {
            let ghost mapped = self.vals@.map_values(|v: Vec<u32>| v@);
            proof {
                assert(mapped.take(i + 1).drop_last() =~= mapped.take(i as int));
                assert(mapped.take(i + 1).last() == mapped[i as int]);
                assert(mapped[i as int] == self.vals@[i as int]@);
            }
            let entry = &self.vals[i];
            let mut lb = u32_to_le_bytes(entry.len() as u32);
            output.append(&mut lb);
            write_u32s(output, entry);
            i = i + 1;
        }
        proof {
            let mapped = self.vals@.map_values(|v: Vec<u32>| v@);
            assert(mapped.take(n as int) =~= mapped);
        }
    }

    /// Drop all queued lists.
    pub fn clear(&mut self)
        ensures
            final(self).vals@.len() == 0,
    {
        self.vals.clear();
    }
}

/// What parsing `count` more blocks from `pos` yields: the lists and the
/// position after them, or `None` when the data is truncated.
pub open spec fn spec_load_blocks(data: Seq<u8>, pos: int, count: int) -> Option<
    (Seq<Seq<u32>>, int),
>
    decreases count,
    when count >= 0
{
    if count == 0 {
        Option::Some((Seq::empty(), pos))
    } else if data.len() - pos < 4 {
        Option::None
    } else {
        let seg = spec_u32_from_le_bytes(data.subrange(pos, pos + 4)) as int;
        if seg > (data.len() - (pos + 4)) / 4 {
            Option::None
        } else {
            let ids = Seq::new(
                seg as nat,
                |k: int| spec_u32_from_le_bytes(data.subrange(pos + 4 + 4 * k, pos + 4 + 4 * k + 4)),
            );
            match spec_load_blocks(data, pos + 4 + 4 * seg, count - 1) {
                Option::None => Option::None,
                Option::Some((rest, end)) => Option::Some((seq![ids] + rest, end)),
            }
        }
    }
}

/// What parsing a whole value block yields: its block count, then that
/// many length-prefixed lists.
pub open spec fn spec_load_block(data: Seq<u8>) -> Option<(Seq<Seq<u32>>, int)> {
    if data.len() < 4 {
        Option::None
    } else {
        spec_load_blocks(data, 4, spec_u32_from_le_bytes(data.subrange(0, 4)) as int)
    }
}

/// Reads a serialized value block back into posting lists.
pub struct VecU32ValueReader {
    pub vals: Vec<Vec<u32>>,
}

impl VecU32ValueReader {
    /// An empty reader.
    pub fn new() -> (r: VecU32ValueReader)
        ensures
            r.vals@.len() == 0,
    {
        VecU32ValueReader { vals: Vec::new() }
    }

    /// The list at `idx`, if loaded.
    pub fn value(&self, idx: usize) -> (r: Option<&Vec<u32>>)
        ensures
            idx < self.vals@.len() ==> r == Option::Some(&self.vals@[idx as int]),
            idx >= self.vals@.len() ==> r is None,
    {
        if idx < self.vals.len() {
            Some(&self.vals[idx])
        } else {
            None
        }
    }

    /// Parse one block, replacing the loaded lists; returns the number of
    /// bytes consumed. The result is exactly what [`spec_load_block`]
    /// describes, mirroring the writer's encoding.
    pub fn load(&mut self, data: &Vec<u8>) -> (r: Option<usize>)
        ensures
            match r {
                Some(consumed) => {
                    &&& spec_load_block(data@) is Some
                    &&& consumed == spec_load_block(data@).unwrap().1
                    &&& consumed <= data@.len()
                    &&& final(self).vals@.len() == spec_load_block(data@).unwrap().0.len()
                    &&& forall|i: int|
                        0 <= i < final(self).vals@.len() ==> (#[trigger] final(self).vals@[i])@
                            == spec_load_block(data@).unwrap().0[i]
                },
                None => spec_load_block(data@) is None,
            },
    {
        self.vals = Vec::new();
        let total = data.len();
        if total < 4 {
            return None;
        }
        let num_blocks = u32_from_le_bytes(
            vstd::slice::slice_subrange(data.as_slice(), 0, 4),
        ) as usize;
        let mut pos: usize = 4;
        let mut b: usize = 0;
        while b < num_blocks
            invariant
                total == data@.len(),
                4 <= pos <= total,
                b <= num_blocks,
                num_blocks == spec_u32_from_le_bytes(data@.subrange(0, 4)) as int,
                self.vals@.len() == b,
                (match spec_load_blocks(data@, pos as int, num_blocks - b) {
                    Option::Some((rest, end)) => spec_load_blocks(
                        data@,
                        4,
                        num_blocks as int,
                    ) == Option::Some(
                        (self.vals@.map_values(|v: Vec<u32>| v@) + rest, end),
                    ),
                    Option::None => spec_load_blocks(data@, 4, num_blocks as int) is None,
                }),
            decreases num_blocks - b,
        {
            if total - pos < 4 {
                return None;
            }
            let seg_len = u32_from_le_bytes(
                vstd::slice::slice_subrange(data.as_slice(), pos, pos + 4),
            ) as usize;
            let ghost blockpos = pos as int;
            pos = pos + 4;
            if seg_len > (total - pos) / 4 {
                return None;
            }
            let mut ids: Vec<u32> = Vec::new();
            let mut k: usize = 0;
            while k < seg_len
                invariant
                    total == data@.len(),
                    pos + 4 * seg_len <= total,
                    k <= seg_len,
                    ids@.len() == k,
                    forall|k2: int|
                        0 <= k2 < k ==> #[trigger] ids@[k2] == spec_u32_from_le_bytes(
                            data@.subrange(pos + 4 * k2, pos + 4 * k2 + 4),
                        ),
                decreases seg_len - k,
            {
                let id = u32_from_le_bytes(
                    vstd::slice::slice_subrange(data.as_slice(), pos + 4 * k, pos + 4 * k + 4),
                );
                ids.push(id);
                k = k + 1;
            }
            proof {
                let segi = spec_u32_from_le_bytes(
                    data@.subrange(blockpos, blockpos + 4),
                ) as int;
                assert(segi == seg_len);
                assert(ids@ =~= Seq::new(
                    segi as nat,
                    |k2: int| spec_u32_from_le_bytes(
                        data@.subrange(blockpos + 4 + 4 * k2, blockpos + 4 + 4 * k2 + 4),
                    ),
                ));
            }
            let ghost vpre = self.vals@;
            pos = pos + 4 * seg_len;
            self.vals.push(ids);
            proof {
                let mapped = self.vals@.map_values(|v: Vec<u32>| v@);
                let mpre = vpre.map_values(|v: Vec<u32>| v@);
                assert(mapped =~= mpre.push(ids@));
                let segi = seg_len as int;
                assert(spec_load_blocks(data@, blockpos, num_blocks - b) == (
                match spec_load_blocks(data@, blockpos + 4 + 4 * segi, num_blocks - b - 1) {
                    Option::None => Option::None::<(Seq<Seq<u32>>, int)>,
                    Option::Some((rest, end)) => Option::Some((seq![ids@] + rest, end)),
                }));
                match spec_load_blocks(data@, pos as int, num_blocks - (b + 1)) {
                    Option::None => {},
                    Option::Some((rest, end)) => {
                        assert(mpre + (seq![ids@] + rest) =~= mapped + rest);
                    },
                }
            }
            b = b + 1;
        }
        proof {
            assert(spec_load_blocks(data@, pos as int, 0) == Option::Some(
                (Seq::<Seq<u32>>::empty(), pos as int),
            ));
            let mapped = self.vals@.map_values(|v: Vec<u32>| v@);
            assert(mapped + Seq::<Seq<u32>>::empty() =~= mapped);
            assert(spec_load_blocks(data@, 4, num_blocks as int) == Option::Some(
                (mapped, pos as int),
            ));
            assert forall|i: int|
                0 <= i < self.vals@.len() implies (#[trigger] self.vals@[i])@ == spec_load_block(
                data@,
            ).unwrap().0[i] by {
                assert(mapped[i] == self.vals@[i]@);
            }
        }
        Some(pos)
    }
}

/// Length of the little-endian stream: four bytes per value.
proof fn lemma_u32s_bytes_len(vals: Seq<u32>)
    ensures
        spec_u32s_to_bytes(vals).len() == 4 * vals.len(),
    decreases vals.len(),
{
    vstd::bytes::lemma_auto_spec_u32_to_from_le_bytes();
    if vals.len() > 0 {
        lemma_u32s_bytes_len(vals.drop_last());
    }
}

/// The four bytes at position `4*k` of the stream encode value `k`.
proof fn lemma_u32s_bytes_index(vals: Seq<u32>, k: int)
    requires
        0 <= k < vals.len(),
    ensures
        spec_u32s_to_bytes(vals).subrange(4 * k, 4 * k + 4) == spec_u32_to_le_bytes(vals[k]),
    decreases vals.len(),
{
    vstd::bytes::lemma_auto_spec_u32_to_from_le_bytes();
    lemma_u32s_bytes_len(vals);
    let b = spec_u32s_to_bytes(vals);
    let d = spec_u32s_to_bytes(vals.drop_last());
    lemma_u32s_bytes_len(vals.drop_last());
    if k == vals.len() - 1 {
        assert(b.subrange(4 * k, 4 * k + 4) =~= spec_u32_to_le_bytes(vals[k]));
    } else {
        lemma_u32s_bytes_index(vals.drop_last(), k);
        assert(b.subrange(4 * k, 4 * k + 4) =~= d.subrange(4 * k, 4 * k + 4));
        assert(vals.drop_last()[k] == vals[k]);
    }
}

/// The block encoding, decomposed from the front.
proof fn lemma_value_block_front(lists: Seq<Seq<u32>>)
    requires
        lists.len() > 0,
    ensures
        spec_value_block(lists) == spec_u32_to_le_bytes(lists[0].len() as u32) + spec_u32s_to_bytes(
            lists[0],
        ) + spec_value_block(lists.drop_first()),
    decreases lists.len(),
{
    if lists.len() == 1 {
        assert(lists.drop_last() =~= Seq::<Seq<u32>>::empty());
        assert(lists.drop_first() =~= Seq::<Seq<u32>>::empty());
        assert(spec_value_block(lists) =~= spec_u32_to_le_bytes(lists[0].len() as u32)
            + spec_u32s_to_bytes(lists[0]) + spec_value_block(lists.drop_first()));
    } else {
        let d = lists.drop_last();
        lemma_value_block_front(d);
        assert(d[0] == lists[0]);
        assert(d.drop_first() =~= lists.drop_first().drop_last());
        assert(lists.drop_first().last() == lists.last());
        assert(spec_value_block(lists.drop_first()) == spec_value_block(
            lists.drop_first().drop_last(),
        ) + spec_u32_to_le_bytes(lists.drop_first().last().len() as u32) + spec_u32s_to_bytes(
            lists.drop_first().last(),
        ));
        assert(spec_value_block(lists) =~= spec_u32_to_le_bytes(lists[0].len() as u32)
            + spec_u32s_to_bytes(lists[0]) + spec_value_block(lists.drop_first()));
    }
}

/// Parsing reads back exactly what the writer encoded, block by block.
proof fn lemma_load_blocks_round_trip(data: Seq<u8>, pos: int, lists: Seq<Seq<u32>>)
    requires
        0 <= pos,
        pos + spec_value_block(lists).len() <= data.len(),
        data.subrange(pos, pos + spec_value_block(lists).len() as int) == spec_value_block(lists),
        forall|i: int| 0 <= i < lists.len() ==> (#[trigger] lists[i]).len() <= u32::MAX,
    ensures
        spec_load_blocks(data, pos, lists.len() as int) == Option::Some(
            (lists, pos + spec_value_block(lists).len() as int),
        ),
    decreases lists.len(),
{
    vstd::bytes::lemma_auto_spec_u32_to_from_le_bytes();
    if lists.len() == 0 {
        assert(spec_value_block(lists).len() == 0);
    } else {
        let head = lists[0];
        lemma_value_block_front(lists);
        lemma_u32s_bytes_len(head);
        let blen = spec_value_block(lists).len() as int;
        let seg_bytes = spec_u32s_to_bytes(head);
        let rest_block = spec_value_block(lists.drop_first());
        // The length prefix decodes to the head's length.
        assert(data.subrange(pos, pos + 4) =~= spec_u32_to_le_bytes(head.len() as u32)) by {
            assert(data.subrange(pos, pos + blen) == spec_value_block(lists));
            assert(spec_value_block(lists).subrange(0, 4) =~= spec_u32_to_le_bytes(
                head.len() as u32,
            ));
            assert(data.subrange(pos, pos + 4) =~= data.subrange(pos, pos + blen).subrange(0, 4));
        }
        let seg = spec_u32_from_le_bytes(data.subrange(pos, pos + 4)) as int;
        assert(seg == head.len());
        assert(4 + 4 * seg + rest_block.len() == blen);
        assert(seg <= (data.len() - (pos + 4)) / 4);
        // The id bytes decode to the head's values.
        let ids = Seq::new(
            seg as nat,
            |k: int| spec_u32_from_le_bytes(data.subrange(pos + 4 + 4 * k, pos + 4 + 4 * k + 4)),
        );
        assert(ids =~= head) by {
            assert forall|k: int| 0 <= k < seg implies ids[k] == head[k] by {
                lemma_u32s_bytes_index(head, k);
                assert(data.subrange(pos + 4 + 4 * k, pos + 4 + 4 * k + 4) =~= seg_bytes.subrange(
                    4 * k,
                    4 * k + 4,
                )) by {
                    assert(data.subrange(pos, pos + blen) == spec_value_block(lists));
                    assert(spec_value_block(lists).subrange(4 + 4 * k, 4 + 4 * k + 4)
                        =~= seg_bytes.subrange(4 * k, 4 * k + 4));
                    assert(data.subrange(pos + 4 + 4 * k, pos + 4 + 4 * k + 4) =~= data.subrange(
                        pos,
                        pos + blen,
                    ).subrange(4 + 4 * k, 4 + 4 * k + 4));
                }
            }
        }
        // The remainder parses recursively.
        assert(data.subrange(pos + 4 + 4 * seg, pos + 4 + 4 * seg + rest_block.len() as int)
            =~= rest_block) by {
            assert(data.subrange(pos, pos + blen) == spec_value_block(lists));
            assert(spec_value_block(lists).subrange(4 + 4 * seg, blen) =~= rest_block);
            assert(data.subrange(pos + 4 + 4 * seg, pos + blen) =~= data.subrange(
                pos,
                pos + blen,
            ).subrange(4 + 4 * seg, blen));
        }
        assert forall|i: int|
            0 <= i < lists.drop_first().len() implies (#[trigger] lists.drop_first()[i]).len()
            <= u32::MAX by {
            assert(lists[i + 1].len() <= u32::MAX);
        }
        lemma_load_blocks_round_trip(data, pos + 4 + 4 * seg, lists.drop_first());
        assert(seq![ids] + lists.drop_first() =~= lists);
    }
}

/// The reader mirrors the writer: parsing a serialized block (with any
/// trailing bytes) yields back exactly the queued lists and consumes
/// exactly the block.
pub proof fn lemma_value_block_round_trip(lists: Seq<Seq<u32>>, suffix: Seq<u8>)
    requires
        lists.len() <= u32::MAX,
        forall|i: int| 0 <= i < lists.len() ==> (#[trigger] lists[i]).len() <= u32::MAX,
    ensures
        ({
            let data = spec_u32_to_le_bytes(lists.len() as u32) + spec_value_block(lists) + suffix;
            &&& spec_load_block(data) is Some
            &&& spec_load_block(data).unwrap().0 == lists
            &&& spec_load_block(data).unwrap().1 == 4 + spec_value_block(lists).len()
        }),
{
    vstd::bytes::lemma_auto_spec_u32_to_from_le_bytes();
    let data = spec_u32_to_le_bytes(lists.len() as u32) + spec_value_block(lists) + suffix;
    assert(data.subrange(0, 4) =~= spec_u32_to_le_bytes(lists.len() as u32));
    assert(data.subrange(4, 4 + spec_value_block(lists).len() as int) =~= spec_value_block(lists));
    lemma_load_blocks_round_trip(data, 4, lists);
}

} // verus!
