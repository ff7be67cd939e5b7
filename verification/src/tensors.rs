//! Ingesting `.safetensors` weight shards as node properties: the tensors
//! of a shard, read by the `safetensors` crate, become one property column
//! each, typed by the snapshot format's data type for their element type.
use vstd::prelude::*;
use safetensors::Dtype;

verus! {

#[verifier::external_type_specification]
#[verifier::external_body]
pub struct ExSafeTensorError(safetensors::SafeTensorError);

/// The element type of a tensor, as far as ingesting tells them apart.
#[derive(PartialEq, Eq, Structural, Clone, Copy, Debug)]
pub enum TensorDtype {
    F32,
    F16,
    BF16,
    I32,
    I64,
    U8,
    I8,
    Bool,
    Other,
}

/// The data type of a property column of a snapshot.
#[derive(PartialEq, Eq, Structural, Clone, Copy, Debug)]
pub enum PropertyType {
    Float32,
    Float16,
    Int32,
    Int64,
    Uint8,
    Int8,
    Bool8,
}

/// One tensor of a shard: its name, element type, shape and raw data bytes.
#[derive(Debug)]
pub struct TensorRecord {
    pub name: String,
    pub dtype: TensorDtype,
    pub shape: Vec<usize>,
    pub data: Vec<u8>,
}

/// Why a shard could not be ingested.
#[derive(Debug)]
pub enum TensorError {
    /// The `safetensors` reader refused the shard's bytes.
    Malformed(safetensors::SafeTensorError),
}

/// Whether `SafeTensors::deserialize` reads the bytes as a shard.
pub uninterp spec fn safetensors_parses(bytes: Seq<u8>) -> bool;

/// What `SafeTensors::tensor` gives for a name in the shard read from the
/// bytes: the tensor's element type, shape and data bytes, or `None` where
/// the shard holds no tensor of that name.
pub uninterp spec fn safetensors_tensor_of(bytes: Seq<u8>, name: Seq<char>) -> Option<(TensorDtype, Seq<usize>, Seq<u8>)>;

/// The records are the tensors of the shard read from `bytes`: each
/// record's type and data are those of the tensor of its name, no name
/// occurs twice, and every tensor of the shard has a record.
pub open spec fn records_of(bytes: Seq<u8>, v: Seq<TensorRecord>) -> bool {
    &&& forall|i: int|
        0 <= i < v.len() ==> safetensors_tensor_of(bytes, (#[trigger] v[i]).name@) == Some(
            (v[i].dtype, v[i].shape@, v[i].data@),
        )
    &&& forall|i: int, j: int| 0 <= i < j < v.len() ==> (#[trigger] v[i]).name@ != (#[trigger] v[j]).name@
    &&& forall|n: Seq<char>|
        #[trigger] safetensors_tensor_of(bytes, n) is Some ==> exists|i: int| 0 <= i < v.len() && (#[trigger] v[i]).name@ == n
}

/// `SafeTensors::deserialize`, then `SafeTensors::tensors`: the tensors of
/// the shard, one record each with its name, element type, shape and data (the
/// shard's index is a map, so every name occurs once and every tensor is
/// listed). `deserialize` succeeds exactly on the bytes the names call a
/// shard. Each element type is converted to its tag, the types that
/// ingesting does not tell apart to `Other`. The order of the records is the order in which the crate walks its
/// hash map, which nothing here states.
#[verifier::external_body]
fn safetensors_records(bytes: &[u8]) -> (r: Result<Vec<TensorRecord>, safetensors::SafeTensorError>)
    ensures
        r is Ok <==> safetensors_parses(bytes@),
        r matches Ok(v) ==> forall|i: int|
            0 <= i < v@.len() ==> safetensors_tensor_of(bytes@, (#[trigger] v@[i]).name@) == Some(
                (v@[i].dtype, v@[i].shape@, v@[i].data@),
            ),
        r matches Ok(v) ==> forall|i: int, j: int|
            0 <= i < j < v@.len() ==> (#[trigger] v@[i]).name@ != (#[trigger] v@[j]).name@,
        r matches Ok(v) ==> forall|n: Seq<char>|
            #[trigger] safetensors_tensor_of(bytes@, n) is Some ==> exists|i: int|
                0 <= i < v@.len() && (#[trigger] v@[i]).name@ == n,
{
    let t = safetensors::SafeTensors::deserialize(bytes)?;
    Ok(t.tensors().into_iter().map(|(name, v)| {
        let dtype = match v.dtype() {
            Dtype::F32 => TensorDtype::F32, Dtype::F16 => TensorDtype::F16, Dtype::BF16 => TensorDtype::BF16,
            Dtype::I32 => TensorDtype::I32, Dtype::I64 => TensorDtype::I64, Dtype::U8 => TensorDtype::U8,
            Dtype::I8 => TensorDtype::I8, Dtype::BOOL => TensorDtype::Bool, _ => TensorDtype::Other,
        };
        TensorRecord { name, dtype, shape: v.shape().to_vec(), data: v.data().to_vec() }
    }).collect())
}

/// Reads the tensors of one `.safetensors` shard.
pub fn shard_tensors(bytes: &[u8]) -> (r: Result<Vec<TensorRecord>, TensorError>)
    ensures
        r is Ok <==> safetensors_parses(bytes@),
        r matches Ok(v) ==> records_of(bytes@, v@),
{
    match safetensors_records(bytes) {
        Ok(v) => Ok(v),
        Err(e) => Err(TensorError::Malformed(e)),
    }
}

/// The property type a tensor's element type is stored as: half floats of
/// either kind as 16-bit floats, and any type without a column type of its
/// own as 32-bit floats.
pub open spec fn property_type_of(d: TensorDtype) -> PropertyType {
    match d {
        TensorDtype::F32 => PropertyType::Float32,
        TensorDtype::F16 => PropertyType::Float16,
        TensorDtype::BF16 => PropertyType::Float16,
        TensorDtype::I32 => PropertyType::Int32,
        TensorDtype::I64 => PropertyType::Int64,
        TensorDtype::U8 => PropertyType::Uint8,
        TensorDtype::I8 => PropertyType::Int8,
        TensorDtype::Bool => PropertyType::Bool8,
        TensorDtype::Other => PropertyType::Float32,
    }
}

pub fn property_type(d: TensorDtype) -> (p: PropertyType)
    ensures
        p == property_type_of(d),
{
    match d {
        TensorDtype::F32 => PropertyType::Float32,
        TensorDtype::F16 => PropertyType::Float16,
        TensorDtype::BF16 => PropertyType::Float16,
        TensorDtype::I32 => PropertyType::Int32,
        TensorDtype::I64 => PropertyType::Int64,
        TensorDtype::U8 => PropertyType::Uint8,
        TensorDtype::I8 => PropertyType::Int8,
        TensorDtype::Bool => PropertyType::Bool8,
        TensorDtype::Other => PropertyType::Float32,
    }
}

/// The number of data bytes of the records.
pub open spec fn data_total(v: Seq<TensorRecord>) -> nat
    decreases v.len(),
{
    if v.len() == 0 {
        0
    } else {
        data_total(v.drop_last()) + v.last().data@.len()
    }
}

proof fn lemma_data_total_prefix(v: Seq<TensorRecord>, j: int)
    requires
        0 <= j <= v.len(),
    ensures
        data_total(v.take(j)) <= data_total(v),
    decreases v.len(),
{
    if j < v.len() {
        lemma_data_total_prefix(v.drop_last(), j);
        assert(v.drop_last().take(j) =~= v.take(j));
    } else {
        assert(v.take(j) =~= v);
    }
}

/// A property column as values: its name, type and data.
pub open spec fn property_view(p: (String, PropertyType, Vec<u8>)) -> (Seq<char>, PropertyType, Seq<u8>) {
    (p.0@, p.1, p.2@)
}

/// The property column of a record.
pub open spec fn record_property(r: TensorRecord) -> (Seq<char>, PropertyType, Seq<u8>) {
    (r.name@, property_type_of(r.dtype), r.data@)
}

/// The property columns of tensor records, one per record in order, each
/// named by its tensor and typed by its element type; and the number of
/// data bytes in all.
pub fn tensor_properties(records: Vec<TensorRecord>) -> (r: (Vec<(String, PropertyType, Vec<u8>)>, u64))
    requires
        data_total(records@) <= u64::MAX,
    ensures
        r.0@.len() == records@.len(),
        forall|i: int| 0 <= i < records@.len() ==> property_view(#[trigger] r.0@[i]) == record_property(records@[i]),
        r.1 == data_total(records@),
{
    let ghost orig = records@;
    let n = records.len();
    let mut recs = records;
    let mut rev: Vec<(String, PropertyType, Vec<u8>)> = Vec::new();
    while recs.len() > 0
        invariant
            recs@ == orig.take(recs@.len() as int),
            rev@.len() + recs@.len() == n,
            n == orig.len(),
            forall|j: int| 0 <= j < rev@.len() ==> property_view(#[trigger] rev@[j]) == record_property(orig[n - 1 - j]),
        decreases recs@.len(),
    {
        let ghost before = recs@;
        let rec = recs.pop().unwrap();
        assert(recs@ =~= orig.take(recs@.len() as int));
        assert(rec == orig[n - 1 - rev@.len()]);
        let p = property_type(rec.dtype);
        rev.push((rec.name, p, rec.data));
    }
    let mut out: Vec<(String, PropertyType, Vec<u8>)> = Vec::new();
    let mut total: u64 = 0;
    while rev.len() > 0
        invariant
            rev@.len() + out@.len() == n,
            n == orig.len(),
            data_total(orig) <= u64::MAX,
            forall|j: int| 0 <= j < rev@.len() ==> property_view(#[trigger] rev@[j]) == record_property(orig[n - 1 - j]),
            forall|j: int| 0 <= j < out@.len() ==> property_view(#[trigger] out@[j]) == record_property(orig[j]),
            total == data_total(orig.take(out@.len() as int)),
        decreases rev@.len(),
    {
        let ghost k = out@.len() as int;
        let p = rev.pop().unwrap();
        assert(property_view(p) == record_property(orig[k]));
        proof {
            assert(orig.take(k + 1).drop_last() =~= orig.take(k));
            lemma_data_total_prefix(orig, k + 1);
        }
        total = total + p.2.len() as u64;
        out.push(p);
    }
    assert(orig.take(n as int) =~= orig);
    (out, total)
}

} // verus!
