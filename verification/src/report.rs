//! The text of the snapshot reports: hex fields, the required-features
//! line, relation labels, and the rows of the comparison of two snapshots.
use vstd::prelude::*;
use crate::disassembler::{hex_digits, hex_u64, push_zero_pad, zero_pad};
use crate::sexpr::{dec, dec_u64};
use crate::text::{append_chars, append_str, chars_of, string_from};

verus! {

/// `format!("0x{:0w$X}", n)`: upper-case hex, zero-padded to `w` digits.
pub open spec fn hex_field(n: nat, w: int) -> Seq<char> {
    "0x"@ + zero_pad(hex_digits(n), w)
}

pub fn hex_text(n: u64, width: usize) -> (s: String)
    ensures
        s@ == hex_field(n as nat, width as int),
{
    let mut out: Vec<char> = Vec::new();
    append_str(&mut out, "0x");
    let h = hex_u64(n);
    push_zero_pad(&mut out, &h, width);
    string_from(out.as_slice())
}

/// The required-features line: the flags as 16 hex digits, then the names
/// of the known feature bits that are set.
pub open spec fn features_line(flags: u64, page_aligned_bit: u64, signed_bit: u64) -> Seq<char> {
    let paged = flags & page_aligned_bit != 0;
    let signed = flags & signed_bit != 0;
    let names = if paged && signed {
        "4KB_PAGE_ALIGNED, CRYPTO_SIGNED"@
    } else if paged {
        "4KB_PAGE_ALIGNED"@
    } else if signed {
        "CRYPTO_SIGNED"@
    } else {
        seq![]
    };
    hex_field(flags as nat, 16) + " ["@ + names + "]"@
}

/// Formats a snapshot's required-feature flags, naming the page-alignment
/// and signature bits (passed in as the snapshot format defines them).
pub fn format_required_features(flags: u64, page_aligned_bit: u64, signed_bit: u64) -> (s: String)
    ensures
        s@ == features_line(flags, page_aligned_bit, signed_bit),
{
    let mut out: Vec<char> = Vec::new();
    append_str(&mut out, "0x");
    let h = hex_u64(flags);
    push_zero_pad(&mut out, &h, 16);
    append_str(&mut out, " [");
    let paged = flags & page_aligned_bit != 0;
    let signed = flags & signed_bit != 0;
    if paged && signed {
        append_str(&mut out, "4KB_PAGE_ALIGNED, CRYPTO_SIGNED");
    } else if paged {
        append_str(&mut out, "4KB_PAGE_ALIGNED");
    } else if signed {
        append_str(&mut out, "CRYPTO_SIGNED");
    }
    append_str(&mut out, "]");
    string_from(out.as_slice())
}

/// A relation's label: its name, or `rel_<source>_<target>` when unnamed.
pub open spec fn relation_label_of(name: Seq<char>, src: u16, tgt: u16) -> Seq<char> {
    if name.len() == 0 {
        "rel_"@ + dec(src as nat) + "_"@ + dec(tgt as nat)
    } else {
        name
    }
}

pub fn relation_label(name: &str, src: u16, tgt: u16) -> (s: String)
    ensures
        s@ == relation_label_of(name@, src, tgt),
{
    let cs = chars_of(name);
    if cs.len() == 0 {
        let mut out: Vec<char> = Vec::new();
        append_str(&mut out, "rel_");
        let a = dec_u64(src as u64);
        append_chars(&mut out, a.as_slice());
        append_str(&mut out, "_");
        let b = dec_u64(tgt as u64);
        append_chars(&mut out, b.as_slice());
        string_from(out.as_slice())
    } else {
        string_from(cs.as_slice())
    }
}

/// `YES` when the two values agree, `NO` otherwise.
pub open spec fn match_word(same: bool) -> Seq<char> {
    if same {
        "YES"@
    } else {
        "NO"@
    }
}

/// The header facts two snapshots are compared on.
#[derive(Clone, Copy)]
pub struct HeaderFacts {
    pub magic: u32,
    pub version: u16,
    pub domain_count: u64,
    pub relation_count: u64,
}

/// A row of a comparison table: a label and the base and target texts,
/// and the last column.
pub struct CompareRow {
    pub label: String,
    pub base: String,
    pub target: String,
    pub last: String,
}

pub open spec fn row_view(r: CompareRow) -> (Seq<char>, Seq<char>, Seq<char>, Seq<char>) {
    (r.label@, r.base@, r.target@, r.last@)
}

/// The header rows: magic (8 hex digits), version (4 hex digits), domain
/// count and relation count, each with whether the two agree.
pub open spec fn header_rows_spec(b: HeaderFacts, t: HeaderFacts) -> Seq<(Seq<char>, Seq<char>, Seq<char>, Seq<char>)> {
    seq![
        ("Magic"@, hex_field(b.magic as nat, 8), hex_field(t.magic as nat, 8), match_word(b.magic == t.magic)),
        ("Version"@, hex_field(b.version as nat, 4), hex_field(t.version as nat, 4), match_word(b.version == t.version)),
        (
            "Domain Count"@,
            dec(b.domain_count as nat),
            dec(t.domain_count as nat),
            match_word(b.domain_count == t.domain_count),
        ),
        (
            "Relation Count"@,
            dec(b.relation_count as nat),
            dec(t.relation_count as nat),
            match_word(b.relation_count == t.relation_count),
        ),
    ]
}

fn word(same: bool) -> (s: String)
    ensures
        s@ == match_word(same),
{
    if same {
        "YES".to_string()
    } else {
        "NO".to_string()
    }
}

fn dec_string(n: u64) -> (s: String)
    ensures
        s@ == dec(n as nat),
{
    let d = dec_u64(n);
    string_from(d.as_slice())
}

/// The header comparison of two snapshots.
pub fn header_rows(b: HeaderFacts, t: HeaderFacts) -> (rows: Vec<CompareRow>)
    ensures
        rows@.map_values(|r: CompareRow| row_view(r)) == header_rows_spec(b, t),
{
    let mut rows: Vec<CompareRow> = Vec::new();
    rows.push(
        CompareRow {
            label: "Magic".to_string(),
            base: hex_text(b.magic as u64, 8),
            target: hex_text(t.magic as u64, 8),
            last: word(b.magic == t.magic),
        },
    );
    rows.push(
        CompareRow {
            label: "Version".to_string(),
            base: hex_text(b.version as u64, 4),
            target: hex_text(t.version as u64, 4),
            last: word(b.version == t.version),
        },
    );
    rows.push(
        CompareRow {
            label: "Domain Count".to_string(),
            base: dec_string(b.domain_count),
            target: dec_string(t.domain_count),
            last: word(b.domain_count == t.domain_count),
        },
    );
    rows.push(
        CompareRow {
            label: "Relation Count".to_string(),
            base: dec_string(b.relation_count),
            target: dec_string(t.relation_count),
            last: word(b.relation_count == t.relation_count),
        },
    );
    assert(rows@.map_values(|r: CompareRow| row_view(r)) =~= header_rows_spec(b, t));
    rows
}

/// `format!("{:+}", d)`: the sign, then the decimal digits.
pub open spec fn signed_text(d: int) -> Seq<char> {
    if d >= 0 {
        "+"@ + dec(d as nat)
    } else {
        "-"@ + dec((-d) as nat)
    }
}

/// The row of relation `i` in the topology comparison: node counts (`-` for
/// a relation one side lacks), edge counts (0 when lacking) and the change
/// in edges.  `(node_count, edge_count)` per relation.
pub open spec fn topology_row(base: Seq<(u64, u64)>, target: Seq<(u64, u64)>, i: int) -> (Seq<char>, Seq<char>, Seq<char>, Seq<char>, Seq<char>, Seq<char>) {
    let bn = if i < base.len() { dec(base[i].0 as nat) } else { "-"@ };
    let tn = if i < target.len() { dec(target[i].0 as nat) } else { "-"@ };
    let be: int = if i < base.len() { base[i].1 as int } else { 0 };
    let te: int = if i < target.len() { target[i].1 as int } else { 0 };
    (dec(i as nat), bn, tn, dec(be as nat), dec(te as nat), signed_text(te - be))
}

/// A row of the topology comparison.
pub struct TopologyRow {
    pub id: String,
    pub base_nodes: String,
    pub target_nodes: String,
    pub base_edges: String,
    pub target_edges: String,
    pub delta_edges: String,
}

pub open spec fn topology_view(r: TopologyRow) -> (Seq<char>, Seq<char>, Seq<char>, Seq<char>, Seq<char>, Seq<char>) {
    (r.id@, r.base_nodes@, r.target_nodes@, r.base_edges@, r.target_edges@, r.delta_edges@)
}

fn signed_string(d: i64) -> (s: String)
    requires
        d > i64::MIN,
    ensures
        s@ == signed_text(d as int),
{
    let mut out: Vec<char> = Vec::new();
    if d >= 0 {
        append_str(&mut out, "+");
        let m = dec_u64(d as u64);
        append_chars(&mut out, m.as_slice());
    } else {
        append_str(&mut out, "-");
        let m = dec_u64((-d) as u64);
        append_chars(&mut out, m.as_slice());
    }
    string_from(out.as_slice())
}

/// The rows of the relation topology comparison, one per relation of the
/// larger catalog.  Edge counts are those of a file, below 2^63.
pub fn topology_rows(base: &[(u64, u64)], target: &[(u64, u64)]) -> (rows: Vec<TopologyRow>)
    requires
        forall|i: int| 0 <= i < base.len() ==> #[trigger] base@[i].1 <= i64::MAX,
        forall|i: int| 0 <= i < target.len() ==> #[trigger] target@[i].1 <= i64::MAX,
    ensures
        rows.len() == if base.len() >= target.len() { base.len() } else { target.len() },
        forall|i: int| 0 <= i < rows.len() ==> topology_view(#[trigger] rows@[i]) == topology_row(base@, target@, i),
{
    let n = if base.len() >= target.len() { base.len() } else { target.len() };
    let mut rows: Vec<TopologyRow> = Vec::new();
    let mut i: usize = 0;
    while i < n
        invariant
            i <= n,
            n == if base.len() >= target.len() { base.len() } else { target.len() },
            rows.len() == i,
            forall|i: int| 0 <= i < base.len() ==> #[trigger] base@[i].1 <= i64::MAX,
            forall|i: int| 0 <= i < target.len() ==> #[trigger] target@[i].1 <= i64::MAX,
            forall|j: int| 0 <= j < i ==> topology_view(#[trigger] rows@[j]) == topology_row(base@, target@, j),
        decreases n - i,
    {
        let base_nodes = if i < base.len() { dec_string(base[i].0) } else { "-".to_string() };
        let target_nodes = if i < target.len() { dec_string(target[i].0) } else { "-".to_string() };
        let be: u64 = if i < base.len() { base[i].1 } else { 0 };
        let te: u64 = if i < target.len() { target[i].1 } else { 0 };
        let delta = (te as i64) - (be as i64);
        rows.push(
            TopologyRow {
                id: dec_string(i as u64),
                base_nodes,
                target_nodes,
                base_edges: dec_string(be),
                target_edges: dec_string(te),
                delta_edges: signed_string(delta),
            },
        );
        i = i + 1;
    }
    rows
}

// ---------------------------------------------------------------------------
// Query results
// ---------------------------------------------------------------------------

/// Bit `i` of a bitset stored as 64-bit words, lowest bit first.
pub open spec fn bit_at(words: Seq<u64>, i: int) -> bool {
    words[i / 64] & (1u64 << ((i % 64) as u64)) != 0
}

/// The members below `k` of a bitset over `n` nodes, in increasing order.
pub open spec fn members_below(words: Seq<u64>, n: int, k: int) -> Seq<usize>
    decreases k,
{
    if k <= 0 {
        seq![]
    } else {
        let prev = members_below(words, n, k - 1);
        if k - 1 < n && bit_at(words, k - 1) {
            prev.push((k - 1) as usize)
        } else {
            prev
        }
    }
}

proof fn lemma_word_bit(w: int, b: int)
    requires
        0 <= w,
        0 <= b < 64,
    ensures
        (w * 64 + b) / 64 == w,
        (w * 64 + b) % 64 == b,
{
    vstd::arithmetic::div_mod::lemma_fundamental_div_mod_converse(w * 64 + b, 64, w, b);
}

/// The nodes of a result bitset over `num_nodes` nodes, in increasing order.
pub fn bitset_members(words: &[u64], num_nodes: usize) -> (r: Vec<usize>)
    requires
        words.len() * 64 <= usize::MAX,
    ensures
        r@ == members_below(words@, num_nodes as int, words.len() * 64),
{
    let mut r: Vec<usize> = Vec::new();
    let mut w: usize = 0;
    while w < words.len()
        invariant
            w <= words.len(),
            words.len() * 64 <= usize::MAX,
            r@ == members_below(words@, num_nodes as int, w * 64),
        decreases words.len() - w,
    {
        let word = words[w];
        let mut b: usize = 0;
        while b < 64
            invariant
                w < words.len(),
                words.len() * 64 <= usize::MAX,
                word == words@[w as int],
                b <= 64,
                r@ == members_below(words@, num_nodes as int, w * 64 + b),
            decreases 64 - b,
        {
            proof {
                lemma_word_bit(w as int, b as int);
                assert(w * 64 + b < words.len() * 64) by (nonlinear_arith)
                    requires
                        w < words.len(),
                        b < 64,
                ;
            }
            let node = w * 64 + b;
            let mask: u64 = 1u64 << (b as u64);
            if word & mask != 0 && node < num_nodes {
                r.push(node);
            }
            b = b + 1;
        }
        w = w + 1;
    }
    r
}

} // verus!
