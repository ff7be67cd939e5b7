//! Edge attribute columns of a compiled relation: the raw text value of
//! each edge, in CSR edge order, encoded by the attribute's type code
//! (1: 32-bit integer, 2: 64-bit integer, 5: zero-terminated string with an
//! offsets array).
use vstd::prelude::*;
use vstd::utf8::encode_utf8;
use crate::domain_index::utf8_of;
use crate::generate::{le_bytes, push_le};
use crate::text::{parse_i64, parse_i64_exec};

verus! {

/// The raw value of file row `row`: empty when the column is shorter.
pub open spec fn raw_value(vals: Seq<Seq<char>>, row: int) -> Seq<char> {
    if 0 <= row < vals.len() {
        vals[row]
    } else {
        seq![]
    }
}

/// `s.parse::<i64>().unwrap_or(0)`.
pub open spec fn int_or_zero(s: Seq<char>) -> int {
    match parse_i64(s) {
        Some(v) => v,
        None => 0,
    }
}

/// `s.parse::<i32>().unwrap_or(0)`.
pub open spec fn int32_or_zero(s: Seq<char>) -> int {
    match parse_i64(s) {
        Some(v) => if i32::MIN <= v <= i32::MAX {
            v
        } else {
            0
        },
        None => 0,
    }
}

/// The encoded column after the first `k` edges: data bytes and, for
/// strings, the offsets array (starting with 0, one end offset per value).
pub open spec fn column(type_code: u8, vals: Seq<Seq<char>>, rows: Seq<usize>, k: int) -> (Seq<u8>, Seq<u32>)
    decreases k,
{
    if k <= 0 {
        (seq![], seq![0u32])
    } else {
        let (data, offs) = column(type_code, vals, rows, k - 1);
        let s = raw_value(vals, rows[k - 1] as int);
        if type_code == 1 {
            (data + le_bytes((int32_or_zero(s) as i32 as u32) as nat, 4), offs)
        } else if type_code == 2 {
            (data + le_bytes((int_or_zero(s) as i64 as u64) as nat, 8), offs)
        } else if type_code == 5 {
            let d2 = data + encode_utf8(s) + seq![0u8];
            (d2, offs.push(d2.len() as u32))
        } else {
            (data, offs)
        }
    }
}

/// Encodes one attribute column of a relation: `vals` holds the raw values
/// by file row, `rows` the file row of each CSR edge.  Gives the data bytes
/// and, for a string column, the offsets array.  The floating-point type
/// codes 3 and 4 are not encoded here.
pub fn encode_column(type_code: u8, vals: &Vec<Vec<char>>, rows: &Vec<usize>) -> (r: (Vec<u8>, Option<Vec<u32>>))
    requires
        type_code != 3 && type_code != 4,
        column(type_code, vals@.map_values(|v: Vec<char>| v@), rows@, rows.len() as int).0.len() <= u32::MAX,
    ensures
        ({
            let (data, offs) = column(type_code, vals@.map_values(|v: Vec<char>| v@), rows@, rows.len() as int);
            &&& r.0@ == data
            &&& r.1 matches Some(o) ==> type_code == 5 && o@ == offs
            &&& r.1 is None ==> type_code != 5
        }),
{
    let ghost vv = vals@.map_values(|v: Vec<char>| v@);
    let mut data: Vec<u8> = Vec::new();
    let mut offs: Vec<u32> = Vec::new();
    offs.push(0);
    let mut k: usize = 0;
    assert(offs@ =~= seq![0u32]);
    while k < rows.len()
        invariant
            k <= rows.len(),
            vv == vals@.map_values(|v: Vec<char>| v@),
            type_code != 3 && type_code != 4,
            (data@, offs@) == column(type_code, vv, rows@, k as int),
            column(type_code, vv, rows@, rows.len() as int).0.len() <= u32::MAX,
        decreases rows.len() - k,
    {
        proof {
            lemma_column_grows(type_code, vv, rows@, k + 1, rows.len() as int);
        }
        let row = rows[k];
        let empty: Vec<char> = Vec::new();
        let s: &Vec<char> = if row < vals.len() {
            &vals[row]
        } else {
            &empty
        };
        assert(s@ == raw_value(vv, row as int));
        if type_code == 1 {
            let v: i32 = match parse_i64_exec(s.as_slice()) {
                Some(x) => if i32::MIN as i64 <= x && x <= i32::MAX as i64 {
                    x as i32
                } else {
                    0
                },
                None => 0,
            };
            push_le(&mut data, (v as u32) as u64, 4);
        } else if type_code == 2 {
            let v: i64 = match parse_i64_exec(s.as_slice()) {
                Some(x) => x,
                None => 0,
            };
            push_le(&mut data, v as u64, 8);
        } else if type_code == 5 {
            let bytes = utf8_of(s.as_slice());
            let mut j: usize = 0;
            let ghost before = data@;
            while j < bytes.len()
                invariant
                    j <= bytes.len(),
                    data@ == before + bytes@.take(j as int),
                decreases bytes.len() - j,
            {
                data.push(bytes[j]);
                j = j + 1;
                assert(data@ =~= before + bytes@.take(j as int));
            }
            data.push(0);
            assert(bytes@.take(bytes.len() as int) =~= bytes@);
            assert(data@ =~= before + encode_utf8(s@) + seq![0u8]);
            offs.push(data.len() as u32);
        }
        k = k + 1;
    }
    if type_code == 5 {
        (data, Some(offs))
    } else {
        (data, None)
    }
}

proof fn lemma_column_grows(type_code: u8, vals: Seq<Seq<char>>, rows: Seq<usize>, k: int, m: int)
    requires
        0 <= k <= m,
    ensures
        column(type_code, vals, rows, k).0.len() <= column(type_code, vals, rows, m).0.len(),
    decreases m - k,
{
    if k < m {
        lemma_column_grows(type_code, vals, rows, k, m - 1);
    }
}

} // verus!
