//! Structural checks of a snapshot's relation catalog: relations sorted by
//! (source domain, target domain) without repeats, every array 128-byte
//! aligned and within the file, CSR arrays consistent with the counts, and
//! every column index a node of the target domain.
use vstd::prelude::*;

verus! {

/// The file extent of one attribute: its data and its offsets arrays.
#[derive(Clone, Copy)]
pub struct AttrExtent {
    pub data_offset: u64,
    pub data_bytes: u64,
    pub offsets_offset: u64,
    pub offsets_bytes: u64,
}

/// What the checks read of one relation descriptor, with its CSR arrays.
pub struct RelationEntry {
    pub src_domain_id: u16,
    pub tgt_domain_id: u16,
    pub node_count: u64,
    /// The node count of the target domain, which bounds the column indices.
    pub tgt_node_count: u64,
    pub edge_count: u64,
    pub csr_row_off_offset: u64,
    pub csr_row_off_bytes: u64,
    pub csr_col_idx_offset: u64,
    pub csr_col_idx_bytes: u64,
    pub csc_row_off_offset: u64,
    pub csc_row_off_bytes: u64,
    pub csc_col_idx_offset: u64,
    pub csc_col_idx_bytes: u64,
    pub attributes: Vec<AttrExtent>,
    pub row_offsets: Vec<u32>,
    pub col_indices: Vec<u32>,
}

/// Which array of a relation an extent check is about.
#[derive(PartialEq, Eq, Structural, Clone, Copy, Debug)]
pub enum ArrayKind {
    CsrRowOffsets,
    CsrColIndices,
    CscRowOffsets,
    CscColIndices,
    AttrData(usize),
    AttrOffsets(usize),
}

/// Why a snapshot's catalog is invalid; `index` is the relation's position.
#[derive(PartialEq, Eq, Structural, Clone, Copy, Debug)]
pub enum CatalogError {
    OutOfOrder { index: usize, src: u16, tgt: u16, prev_src: u16, prev_tgt: u16 },
    Duplicate { index: usize, src: u16, tgt: u16 },
    Misaligned { index: usize, array: ArrayKind, offset: u64 },
    PastEnd { index: usize, array: ArrayKind, end: u64, file_len: u64 },
    RowOffsetsLength { index: usize, len: usize },
    NonMonotonic { index: usize, at: usize, a: u32, b: u32 },
    LastOffset { index: usize, last: u32, edge_count: u64 },
    ColumnLength { index: usize, len: usize, edge_count: u64 },
    ColumnOutOfRange { index: usize, at: usize, col: u32, tgt_node_count: u64 },
}

/// A stored array at `offset` (0: absent) must start on a 128-byte
/// boundary and end within the file.
pub open spec fn extent_error(index: usize, array: ArrayKind, offset: u64, bytes: u64, file_len: u64) -> Option<CatalogError> {
    if offset > 0 {
        if offset % 128 != 0 {
            Some(CatalogError::Misaligned { index, array, offset })
        } else if offset + bytes > file_len {
            Some(CatalogError::PastEnd { index, array, end: (offset + bytes) as u64, file_len })
        } else {
            None
        }
    } else {
        None
    }
}

pub open spec fn attrs_error(index: usize, attrs: Seq<AttrExtent>, k: int, file_len: u64) -> Option<CatalogError>
    decreases attrs.len() - k,
{
    if k < 0 || k >= attrs.len() {
        None
    } else {
        let a = attrs[k];
        match extent_error(index, ArrayKind::AttrData(k as usize), a.data_offset, a.data_bytes, file_len) {
            Some(e) => Some(e),
            None => match extent_error(index, ArrayKind::AttrOffsets(k as usize), a.offsets_offset, a.offsets_bytes, file_len) {
                Some(e) => Some(e),
                None => attrs_error(index, attrs, k + 1, file_len),
            },
        }
    }
}

/// The first position where the offsets decrease.
pub open spec fn first_decrease(offs: Seq<u32>, i: int, n: int) -> Option<int>
    decreases n - i,
{
    if i < 0 || i >= n {
        None
    } else if offs[i] > offs[i + 1] {
        Some(i)
    } else {
        first_decrease(offs, i + 1, n)
    }
}

/// The first position from `i` on whose column index is not a node of a
/// target domain of `bound` nodes.
pub open spec fn first_out_of_range(cols: Seq<u32>, bound: u64, i: int) -> Option<int>
    decreases cols.len() - i,
{
    if i < 0 || i >= cols.len() {
        None
    } else if cols[i] >= bound {
        Some(i)
    } else {
        first_out_of_range(cols, bound, i + 1)
    }
}

/// The column range check: every column index is a node of the target
/// domain.
pub open spec fn range_error(index: usize, r: RelationEntry) -> Option<CatalogError> {
    match first_out_of_range(r.col_indices@, r.tgt_node_count, 0) {
        Some(k) => Some(
            CatalogError::ColumnOutOfRange { index, at: k as usize, col: r.col_indices@[k], tgt_node_count: r.tgt_node_count },
        ),
        None => None,
    }
}

/// The checks of the CSR arrays of a relation: the row offsets of a
/// relation with nodes, then the column range of every relation.
pub open spec fn arrays_error(index: usize, r: RelationEntry) -> Option<CatalogError> {
    let offs = r.row_offsets@;
    let n = r.node_count as int;
    if n == 0 {
        range_error(index, r)
    } else if offs.len() != n + 1 {
        Some(CatalogError::RowOffsetsLength { index, len: offs.len() as usize })
    } else {
        match first_decrease(offs, 0, n) {
            Some(i) => Some(CatalogError::NonMonotonic { index, at: i as usize, a: offs[i], b: offs[i + 1] }),
            None => if offs[n] as u64 != r.edge_count {
                Some(CatalogError::LastOffset { index, last: offs[n], edge_count: r.edge_count })
            } else if r.col_indices@.len() != r.edge_count {
                Some(CatalogError::ColumnLength { index, len: r.col_indices@.len() as usize, edge_count: r.edge_count })
            } else {
                range_error(index, r)
            },
        }
    }
}

/// All checks of relation `index`, in order.
pub open spec fn relation_error(rels: Seq<RelationEntry>, index: int, file_len: u64) -> Option<CatalogError> {
    let r = rels[index];
    let i = index as usize;
    if index > 0 && (r.src_domain_id < rels[index - 1].src_domain_id || (r.src_domain_id
        == rels[index - 1].src_domain_id && r.tgt_domain_id < rels[index - 1].tgt_domain_id)) {
        Some(
            CatalogError::OutOfOrder {
                index: i,
                src: r.src_domain_id,
                tgt: r.tgt_domain_id,
                prev_src: rels[index - 1].src_domain_id,
                prev_tgt: rels[index - 1].tgt_domain_id,
            },
        )
    } else if exists|j: int|
        0 <= j < index && rels[j].src_domain_id == r.src_domain_id && rels[j].tgt_domain_id
            == r.tgt_domain_id {
        Some(CatalogError::Duplicate { index: i, src: r.src_domain_id, tgt: r.tgt_domain_id })
    } else {
        match extent_error(i, ArrayKind::CsrRowOffsets, r.csr_row_off_offset, r.csr_row_off_bytes, file_len) {
            Some(e) => Some(e),
            None => match extent_error(i, ArrayKind::CsrColIndices, r.csr_col_idx_offset, r.csr_col_idx_bytes, file_len) {
                Some(e) => Some(e),
                None => match extent_error(i, ArrayKind::CscRowOffsets, r.csc_row_off_offset, r.csc_row_off_bytes, file_len) {
                    Some(e) => Some(e),
                    None => match extent_error(i, ArrayKind::CscColIndices, r.csc_col_idx_offset, r.csc_col_idx_bytes, file_len) {
                        Some(e) => Some(e),
                        None => match attrs_error(i, r.attributes@, 0, file_len) {
                            Some(e) => Some(e),
                            None => arrays_error(i, r),
                        },
                    },
                },
            },
        }
    }
}

/// The first error over relations `k ..`.
pub open spec fn catalog_error(rels: Seq<RelationEntry>, k: int, file_len: u64) -> Option<CatalogError>
    decreases rels.len() - k,
{
    if k < 0 || k >= rels.len() {
        None
    } else {
        match relation_error(rels, k, file_len) {
            Some(e) => Some(e),
            None => catalog_error(rels, k + 1, file_len),
        }
    }
}

/// The sums of offset and size of every stored array fit in `u64`.
pub open spec fn extents_fit(rels: Seq<RelationEntry>) -> bool {
    forall|k: int|
        0 <= k < rels.len() ==> {
            let r = #[trigger] rels[k];
            &&& r.csr_row_off_offset + r.csr_row_off_bytes <= u64::MAX
            &&& r.csr_col_idx_offset + r.csr_col_idx_bytes <= u64::MAX
            &&& r.csc_row_off_offset + r.csc_row_off_bytes <= u64::MAX
            &&& r.csc_col_idx_offset + r.csc_col_idx_bytes <= u64::MAX
            &&& forall|a: int|
                0 <= a < r.attributes@.len() ==> #[trigger] r.attributes@[a].data_offset + r.attributes@[a].data_bytes
                    <= u64::MAX && r.attributes@[a].offsets_offset + r.attributes@[a].offsets_bytes <= u64::MAX
        }
}

fn check_extent(index: usize, array: ArrayKind, offset: u64, bytes: u64, file_len: u64) -> (r: Result<(), CatalogError>)
    requires
        offset + bytes <= u64::MAX,
    ensures
        match extent_error(index, array, offset, bytes, file_len) {
            Some(e) => r == Err::<(), CatalogError>(e),
            None => r is Ok,
        },
{
    if offset > 0 {
        if offset % 128 != 0 {
            return Err(CatalogError::Misaligned { index, array, offset });
        }
        if offset + bytes > file_len {
            return Err(CatalogError::PastEnd { index, array, end: offset + bytes, file_len });
        }
    }
    Ok(())
}

fn check_column_range(index: usize, r: &RelationEntry) -> (res: Result<(), CatalogError>)
    ensures
        match range_error(index, *r) {
            Some(e) => res == Err::<(), CatalogError>(e),
            None => res is Ok,
        },
{
    let mut k: usize = 0;
    while k < r.col_indices.len()
        invariant
            k <= r.col_indices@.len(),
            first_out_of_range(r.col_indices@, r.tgt_node_count, 0) == first_out_of_range(
                r.col_indices@,
                r.tgt_node_count,
                k as int,
            ),
        decreases r.col_indices.len() - k,
    {
        if r.col_indices[k] as u64 >= r.tgt_node_count {
            return Err(
                CatalogError::ColumnOutOfRange { index, at: k, col: r.col_indices[k], tgt_node_count: r.tgt_node_count },
            );
        }
        k = k + 1;
    }
    Ok(())
}

fn check_arrays(index: usize, r: &RelationEntry) -> (res: Result<(), CatalogError>)
    ensures
        match arrays_error(index, *r) {
            Some(e) => res == Err::<(), CatalogError>(e),
            None => res is Ok,
        },
{
    if r.node_count == 0 {
        return check_column_range(index, r);
    }
    let len = r.row_offsets.len();
    if r.node_count == u64::MAX || len as u64 != r.node_count + 1 {
        return Err(CatalogError::RowOffsetsLength { index, len });
    }
    let n = len - 1;
    let mut i: usize = 0;
    while i < n
        invariant
            i <= n,
            n + 1 == r.row_offsets@.len(),
            n == r.node_count,
            first_decrease(r.row_offsets@, 0, n as int) == first_decrease(r.row_offsets@, i as int, n as int),
        decreases n - i,
    {
        if r.row_offsets[i] > r.row_offsets[i + 1] {
            return Err(CatalogError::NonMonotonic { index, at: i, a: r.row_offsets[i], b: r.row_offsets[i + 1] });
        }
        i = i + 1;
    }
    if r.row_offsets[n] as u64 != r.edge_count {
        return Err(CatalogError::LastOffset { index, last: r.row_offsets[n], edge_count: r.edge_count });
    }
    if r.col_indices.len() as u64 != r.edge_count {
        return Err(CatalogError::ColumnLength { index, len: r.col_indices.len(), edge_count: r.edge_count });
    }
    check_column_range(index, r)
}

/// Why a snapshot's header is refused.
#[derive(PartialEq, Eq, Structural, Clone, Copy, Debug)]
pub enum HeaderError {
    /// The file is smaller than the 64-byte header.
    TooSmall { file_len: u64 },
    /// The magic number is not the format's.
    BadMagic { magic: u32, expected: u32 },
    /// The packed version is not the one this tool reads.
    BadVersion { version: u16, expected: u16 },
}

/// The header checks, in order: size, magic, version.
pub open spec fn header_check(file_len: u64, magic: u32, version: u16, expected_magic: u32, expected_version: u16) -> Result<(), HeaderError> {
    if file_len < 64 {
        Err(HeaderError::TooSmall { file_len })
    } else if magic != expected_magic {
        Err(HeaderError::BadMagic { magic, expected: expected_magic })
    } else if version != expected_version {
        Err(HeaderError::BadVersion { version, expected: expected_version })
    } else {
        Ok(())
    }
}

/// Checks a snapshot's size and header fields against the format's magic
/// number and version; the fields are only read from a file of at least
/// 64 bytes.
pub fn check_header(file_len: u64, magic: u32, version: u16, expected_magic: u32, expected_version: u16) -> (r: Result<(), HeaderError>)
    ensures
        r == header_check(file_len, magic, version, expected_magic, expected_version),
{
    if file_len < 64 {
        Err(HeaderError::TooSmall { file_len })
    } else if magic != expected_magic {
        Err(HeaderError::BadMagic { magic, expected: expected_magic })
    } else if version != expected_version {
        Err(HeaderError::BadVersion { version, expected: expected_version })
    } else {
        Ok(())
    }
}

/// Checks the relation catalog of a snapshot of `file_len` bytes; gives the
/// first failed check.
#[verifier::loop_isolation(false)]
pub fn check_relations(rels: &Vec<RelationEntry>, file_len: u64) -> (r: Result<(), CatalogError>)
    requires
        extents_fit(rels@),
    ensures
        match catalog_error(rels@, 0, file_len) {
            Some(e) => r == Err::<(), CatalogError>(e),
            None => r is Ok,
        },
{
    let mut k: usize = 0;
    while k < rels.len()
        invariant
            k <= rels.len(),
            extents_fit(rels@),
            catalog_error(rels@, 0, file_len) == catalog_error(rels@, k as int, file_len),
        decreases rels.len() - k,
    {
        let r = &rels[k];
        assert(*r == rels@[k as int]);
        if k > 0 {
            let p = &rels[k - 1];
            if r.src_domain_id < p.src_domain_id || (r.src_domain_id == p.src_domain_id && r.tgt_domain_id
                < p.tgt_domain_id) {
                return Err(
                    CatalogError::OutOfOrder {
                        index: k,
                        src: r.src_domain_id,
                        tgt: r.tgt_domain_id,
                        prev_src: p.src_domain_id,
                        prev_tgt: p.tgt_domain_id,
                    },
                );
            }
        }
        let mut j: usize = 0;
        while j < k
            invariant
                j <= k < rels.len(),
                forall|q: int|
                    0 <= q < j ==> !(rels@[q].src_domain_id == rels@[k as int].src_domain_id
                        && rels@[q].tgt_domain_id == rels@[k as int].tgt_domain_id),
            decreases k - j,
        {
            if rels[j].src_domain_id == rels[k].src_domain_id && rels[j].tgt_domain_id == rels[k].tgt_domain_id {
                return Err(CatalogError::Duplicate { index: k, src: rels[k].src_domain_id, tgt: rels[k].tgt_domain_id });
            }
            j = j + 1;
        }
        match check_extent(k, ArrayKind::CsrRowOffsets, r.csr_row_off_offset, r.csr_row_off_bytes, file_len) {
            Err(e) => {
                return Err(e);
            },
            Ok(()) => {},
        }
        match check_extent(k, ArrayKind::CsrColIndices, r.csr_col_idx_offset, r.csr_col_idx_bytes, file_len) {
            Err(e) => {
                return Err(e);
            },
            Ok(()) => {},
        }
        match check_extent(k, ArrayKind::CscRowOffsets, r.csc_row_off_offset, r.csc_row_off_bytes, file_len) {
            Err(e) => {
                return Err(e);
            },
            Ok(()) => {},
        }
        match check_extent(k, ArrayKind::CscColIndices, r.csc_col_idx_offset, r.csc_col_idx_bytes, file_len) {
            Err(e) => {
                return Err(e);
            },
            Ok(()) => {},
        }
        let mut a: usize = 0;
        while a < r.attributes.len()
            invariant
                a <= r.attributes.len(),
                *r == rels@[k as int],
                extents_fit(rels@),
                k < rels.len(),
                attrs_error(k, r.attributes@, 0, file_len) == attrs_error(k, r.attributes@, a as int, file_len),
            decreases r.attributes.len() - a,
        {
            let x = r.attributes[a];
            match check_extent(k, ArrayKind::AttrData(a), x.data_offset, x.data_bytes, file_len) {
                Err(e) => {
                    return Err(e);
                },
                Ok(()) => {},
            }
            match check_extent(k, ArrayKind::AttrOffsets(a), x.offsets_offset, x.offsets_bytes, file_len) {
                Err(e) => {
                    return Err(e);
                },
                Ok(()) => {},
            }
            a = a + 1;
        }
        match check_arrays(k, r) {
            Err(e) => {
                return Err(e);
            },
            Ok(()) => {},
        }
        k = k + 1;
    }
    Ok(())
}

/// `(src, tgt)` of `a` comes strictly before that of `b`.
pub open spec fn pair_before(a: RelationEntry, b: RelationEntry) -> bool {
    a.src_domain_id < b.src_domain_id || (a.src_domain_id == b.src_domain_id && a.tgt_domain_id
        < b.tgt_domain_id)
}

proof fn lemma_no_error_each(rels: Seq<RelationEntry>, k: int, file_len: u64)
    requires
        0 <= k,
        catalog_error(rels, k, file_len) is None,
    ensures
        forall|i: int| k <= i < rels.len() ==> relation_error(rels, i, file_len) is None,
    decreases rels.len() - k,
{
    if k < rels.len() {
        lemma_no_error_each(rels, k + 1, file_len);
    }
}

/// A catalog that passes the checks lists its relations strictly sorted by
/// (source domain, target domain): in order and without repeats.
pub proof fn law_accepted_catalog_sorted(rels: Seq<RelationEntry>, file_len: u64)
    requires
        catalog_error(rels, 0, file_len) is None,
    ensures
        forall|a: int, b: int| 0 <= a < b < rels.len() ==> pair_before(rels[a], rels[b]),
{
    lemma_no_error_each(rels, 0, file_len);
    assert forall|k: int| 0 < k < rels.len() implies pair_before(#[trigger] rels[k - 1], rels[k]) by {
        assert(relation_error(rels, k, file_len) is None);
        if !(rels[k].src_domain_id == rels[k - 1].src_domain_id && rels[k].tgt_domain_id
            == rels[k - 1].tgt_domain_id) {
        } else {
            assert(exists|j: int|
                0 <= j < k && rels[j].src_domain_id == rels[k].src_domain_id && rels[j].tgt_domain_id
                    == rels[k].tgt_domain_id);
        }
    }
    assert forall|a: int, b: int| 0 <= a < b < rels.len() implies pair_before(rels[a], rels[b]) by {
        lemma_chain(rels, a, b);
    }
}

proof fn lemma_chain(rels: Seq<RelationEntry>, a: int, b: int)
    requires
        0 <= a < b < rels.len(),
        forall|k: int| 0 < k < rels.len() ==> pair_before(#[trigger] rels[k - 1], rels[k]),
    ensures
        pair_before(rels[a], rels[b]),
    decreases b - a,
{
    if b > a + 1 {
        lemma_chain(rels, a, b - 1);
        assert(pair_before(rels[b - 1], rels[b]));
    } else {
        assert(pair_before(rels[b - 1], rels[b]));
    }
}

} // verus!
