//! Text export of a relation's edges: one `src<sep>tgt` line per edge, or
//! one JSON object per line.
use vstd::prelude::*;
use crate::reorder::{valid_csr, lemma_offs_mono};
use crate::sexpr::{dec, dec_u64};
use crate::text::{append_chars, append_str, string_from};

verus! {

/// The output forms of an export.
#[derive(PartialEq, Eq, Structural, Clone, Copy, Debug)]
pub enum ExportFormat {
    Csv,
    Tsv,
    Jsonl,
}

/// The export format named on the command line: `csv` is comma-separated,
/// `jsonl` JSON lines, anything else tab-separated.
pub open spec fn format_of(name: Seq<char>) -> ExportFormat {
    if name == "csv"@ {
        ExportFormat::Csv
    } else if name == "jsonl"@ {
        ExportFormat::Jsonl
    } else {
        ExportFormat::Tsv
    }
}

pub fn export_format(name: &str) -> (f: ExportFormat)
    ensures
        f == format_of(name@),
{
    let cs = crate::text::chars_of(name);
    if crate::text::eq_str(cs.as_slice(), "csv") {
        ExportFormat::Csv
    } else if crate::text::eq_str(cs.as_slice(), "jsonl") {
        ExportFormat::Jsonl
    } else {
        ExportFormat::Tsv
    }
}

/// The line of edge `u -> v`.
pub open spec fn edge_line(f: ExportFormat, u: nat, v: nat) -> Seq<char> {
    match f {
        ExportFormat::Jsonl => "{\"src\":"@ + dec(u) + ",\"tgt\":"@ + dec(v) + "}\n"@,
        ExportFormat::Csv => dec(u) + ","@ + dec(v) + "\n"@,
        ExportFormat::Tsv => dec(u) + "\t"@ + dec(v) + "\n"@,
    }
}

/// The lines of the edges at positions `offs[u] .. k` of row `u`.
pub open spec fn row_text(f: ExportFormat, offs: Seq<u32>, cols: Seq<u32>, u: int, k: int) -> Seq<char>
    decreases k - offs[u],
{
    if k <= offs[u] {
        seq![]
    } else {
        row_text(f, offs, cols, u, k - 1) + edge_line(f, u as nat, cols[k - 1] as nat)
    }
}

/// The lines of rows `0 .. u`.
pub open spec fn rows_text(f: ExportFormat, offs: Seq<u32>, cols: Seq<u32>, u: int) -> Seq<char>
    decreases u,
{
    if u <= 0 {
        seq![]
    } else {
        rows_text(f, offs, cols, u - 1) + row_text(f, offs, cols, u - 1, offs[u] as int)
    }
}

fn push_edge_line(out: &mut Vec<char>, f: ExportFormat, u: u64, v: u64)
    ensures
        final(out)@ == old(out)@ + edge_line(f, u as nat, v as nat),
{
    let ghost start = out@;
    let du = dec_u64(u);
    let dv = dec_u64(v);
    match f {
        ExportFormat::Jsonl => {
            append_str(out, "{\"src\":");
            append_chars(out, du.as_slice());
            append_str(out, ",\"tgt\":");
            append_chars(out, dv.as_slice());
            append_str(out, "}\n");
        },
        ExportFormat::Csv => {
            append_chars(out, du.as_slice());
            append_str(out, ",");
            append_chars(out, dv.as_slice());
            append_str(out, "\n");
        },
        ExportFormat::Tsv => {
            append_chars(out, du.as_slice());
            append_str(out, "\t");
            append_chars(out, dv.as_slice());
            append_str(out, "\n");
        },
    }
    assert(out@ =~= start + edge_line(f, u as nat, v as nat));
}

/// The export text of a relation with `node_count` source nodes.
pub fn export_relation(f: ExportFormat, node_count: usize, row_offsets: &[u32], col_indices: &[u32]) -> (s: String)
    requires
        valid_csr(node_count as int, row_offsets@, col_indices@),
    ensures
        s@ == rows_text(f, row_offsets@, col_indices@, node_count as int),
{
    let ghost offs = row_offsets@;
    let ghost cols = col_indices@;
    let mut out: Vec<char> = Vec::new();
    let mut u: usize = 0;
    while u < node_count
        invariant
            u <= node_count,
            offs == row_offsets@,
            cols == col_indices@,
            valid_csr(node_count as int, offs, cols),
            out@ == rows_text(f, offs, cols, u as int),
        decreases node_count - u,
    {
        proof {
            lemma_offs_mono(node_count as int, offs, cols, u + 1, node_count as int);
        }
        let start = row_offsets[u] as usize;
        let end = row_offsets[u + 1] as usize;
        let ghost before = out@;
        let mut k = start;
        assert(row_text(f, offs, cols, u as int, start as int) =~= Seq::<char>::empty());
        while k < end
            invariant
                start <= k <= end,
                end <= col_indices.len(),
                start == offs[u as int],
                end == offs[u + 1],
                cols == col_indices@,
                out@ == before + row_text(f, offs, cols, u as int, k as int),
            decreases end - k,
        {
            push_edge_line(&mut out, f, u as u64, col_indices[k] as u64);
            k = k + 1;
            assert(out@ =~= before + row_text(f, offs, cols, u as int, k as int));
        }
        u = u + 1;
    }
    string_from(out.as_slice())
}

} // verus!
