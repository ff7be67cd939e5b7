//! Building the contents of a binary snapshot (`.imps`) from a dataset
//! manifest: node numbering per domain, CSR topology per relation, edge
//! attribute columns and the per-domain key lookup index.
//!
//! Reading the manifest and the data files is left to the caller; this
//! module receives the keys and edges they contain.
use vstd::prelude::*;
use crate::strmap::{KeyIndex, distinct_seq};
use crate::csr::{csr_offsets, csr_offsets_ok, sorted_of, lemma_sorted_of};
use crate::sort::{sort_pairs, sorted_pairs, pair_le};
use crate::text::{
    chars_of, copy_range, eq_str, lower, lower_exec, parse_i64, parse_i64_exec, split, split_exec,
    split_ws, split_ws_exec, trim, trim_chars,
};

verus! {

// ---------------------------------------------------------------------------
// Manifest vocabulary
// ---------------------------------------------------------------------------

/// Key type of a domain's node identifiers.
#[derive(PartialEq, Eq, Structural, Clone, Copy, Debug)]
pub enum KeyType {
    String,
    Int64,
    Uuid,
    Int32,
}

/// `parse_key_type`: compared case-insensitively; anything unknown is `Int32`.
pub open spec fn key_type_of(s: Seq<char>) -> KeyType {
    let l = lower(s);
    if l == "string"@ || l == "str"@ {
        KeyType::String
    } else if l == "uint64"@ || l == "u64"@ || l == "int64"@ || l == "i64"@ {
        KeyType::Int64
    } else if l == "uuid"@ {
        KeyType::Uuid
    } else {
        KeyType::Int32
    }
}

pub fn parse_key_type(s: &str) -> (k: KeyType)
    ensures
        k == key_type_of(s@),
{
    let c = chars_of(s);
    let l = lower_exec(c.as_slice());
    let l = l.as_slice();
    if eq_str(l, "string") || eq_str(l, "str") {
        KeyType::String
    } else if eq_str(l, "uint64") || eq_str(l, "u64") || eq_str(l, "int64") || eq_str(l, "i64") {
        KeyType::Int64
    } else if eq_str(l, "uuid") {
        KeyType::Uuid
    } else {
        KeyType::Int32
    }
}

/// Attribute type codes: 1 int32, 2 int64, 3 float32, 4 float64, 5 string.
pub open spec fn type_code_of(s: Seq<char>) -> u8 {
    let l = lower(s);
    if l == "int32"@ || l == "i32"@ || l == "uint32"@ || l == "u32"@ {
        1
    } else if l == "int64"@ || l == "i64"@ || l == "uint64"@ || l == "u64"@ {
        2
    } else if l == "float32"@ || l == "f32"@ || l == "float"@ {
        3
    } else if l == "float64"@ || l == "f64"@ || l == "double"@ {
        4
    } else if l == "string"@ || l == "str"@ || l == "utf8"@ {
        5
    } else {
        1
    }
}

pub fn parse_type_code(s: &str) -> (c: u8)
    ensures
        c == type_code_of(s@),
{
    let cs = chars_of(s);
    let l = lower_exec(cs.as_slice());
    let l = l.as_slice();
    if eq_str(l, "int32") || eq_str(l, "i32") || eq_str(l, "uint32") || eq_str(l, "u32") {
        1
    } else if eq_str(l, "int64") || eq_str(l, "i64") || eq_str(l, "uint64") || eq_str(l, "u64") {
        2
    } else if eq_str(l, "float32") || eq_str(l, "f32") || eq_str(l, "float") {
        3
    } else if eq_str(l, "float64") || eq_str(l, "f64") || eq_str(l, "double") {
        4
    } else if eq_str(l, "string") || eq_str(l, "str") || eq_str(l, "utf8") {
        5
    } else {
        1
    }
}

/// ASCII case-insensitive equality (`eq_ignore_ascii_case`).
pub open spec fn eq_ignore_case(a: Seq<char>, b: Seq<char>) -> bool {
    a.len() == b.len() && forall|i: int|
        0 <= i < a.len() ==> crate::text::ascii_lower(#[trigger] a[i]) == crate::text::ascii_lower(
            b[i],
        )
}

fn ascii_lower_char(c: char) -> (r: char)
    ensures
        r == crate::text::ascii_lower(c),
{
    if 'A' <= c && c <= 'Z' {
        ((c as u8) + 32) as char
    } else {
        c
    }
}

fn eq_ignore_case_exec(a: &[char], lit: &str) -> (r: bool)
    ensures
        r == eq_ignore_case(a@, lit@),
{
    let b = chars_of(lit);
    if a.len() != b.len() {
        return false;
    }
    let mut i: usize = 0;
    while i < a.len()
        invariant
            b@ == lit@,
            a.len() == b.len(),
            i <= a.len(),
            forall|j: int|
                0 <= j < i ==> crate::text::ascii_lower(#[trigger] a@[j])
                    == crate::text::ascii_lower(b@[j]),
        decreases a.len() - i,
    {
        if ascii_lower_char(a[i]) != ascii_lower_char(b[i]) {
            return false;
        }
        i = i + 1;
    }
    true
}

/// `is_parquet_file`: the declared format is `parquet` or `pq` (any case),
/// or else the file's extension, lower-cased, is.
pub open spec fn is_parquet_spec(extension: Option<Seq<char>>, format: Option<Seq<char>>) -> bool {
    if format is Some && (eq_ignore_case(format->0, "parquet"@) || eq_ignore_case(
        format->0,
        "pq"@,
    )) {
        true
    } else {
        match extension {
            Some(e) => lower(e) == "parquet"@ || lower(e) == "pq"@,
            None => false,
        }
    }
}

/// `is_parquet_file`, given the file's extension (`Path::extension`) and the
/// declared format.
pub fn is_parquet_file(extension: Option<&str>, format: Option<&str>) -> (r: bool)
    ensures
        r == is_parquet_spec(
            match extension {
                Some(e) => Some(e@),
                None => None,
            },
            match format {
                Some(f) => Some(f@),
                None => None,
            },
        ),
{
    if let Some(fmt) = format {
        let f = chars_of(fmt);
        if eq_ignore_case_exec(f.as_slice(), "parquet") || eq_ignore_case_exec(f.as_slice(), "pq") {
            return true;
        }
    }
    if let Some(ext) = extension {
        let e = chars_of(ext);
        let l = lower_exec(e.as_slice());
        return eq_str(l.as_slice(), "parquet") || eq_str(l.as_slice(), "pq");
    }
    false
}

// ---------------------------------------------------------------------------
// Delimited data files
// ---------------------------------------------------------------------------

/// The node key a line of a domain file declares: its first word, unless the
/// line is blank or a `#` comment.
pub open spec fn line_key(line: Seq<char>) -> Option<Seq<char>> {
    let t = trim(line);
    if t.len() == 0 || t[0] == '#' || split_ws(t).len() == 0 {
        None
    } else {
        Some(split_ws(t)[0])
    }
}

/// The edge a line of an edge file declares: its first two words, unless the
/// line is blank, a `#` comment, or has fewer than two words.
pub open spec fn line_edge(line: Seq<char>) -> Option<(Seq<char>, Seq<char>)> {
    let t = trim(line);
    if t.len() == 0 || t[0] == '#' || split_ws(t).len() < 2 {
        None
    } else {
        Some((split_ws(t)[0], split_ws(t)[1]))
    }
}

pub open spec fn keys_of_lines(lines: Seq<Seq<char>>) -> Seq<Seq<char>>
    decreases lines.len(),
{
    if lines.len() == 0 {
        seq![]
    } else {
        match line_key(lines.last()) {
            Some(k) => keys_of_lines(lines.drop_last()).push(k),
            None => keys_of_lines(lines.drop_last()),
        }
    }
}

pub open spec fn edges_of_lines(lines: Seq<Seq<char>>) -> Seq<(Seq<char>, Seq<char>)>
    decreases lines.len(),
{
    if lines.len() == 0 {
        seq![]
    } else {
        match line_edge(lines.last()) {
            Some(e) => edges_of_lines(lines.drop_last()).push(e),
            None => edges_of_lines(lines.drop_last()),
        }
    }
}

/// The node keys listed in a domain file, in file order.
pub open spec fn domain_file_keys(text: Seq<char>) -> Seq<Seq<char>> {
    keys_of_lines(split(text, '\n'))
}

/// The `(source key, target key)` pairs of an edge file, in file order.
pub open spec fn edge_file_pairs(text: Seq<char>) -> Seq<(Seq<char>, Seq<char>)> {
    edges_of_lines(split(text, '\n'))
}

pub fn parse_domain_file(text: &str) -> (keys: Vec<Vec<char>>)
    ensures
        keys@.map_values(|k: Vec<char>| k@) == domain_file_keys(text@),
{
    let t = chars_of(text);
    let lines = split_exec(t.as_slice(), '\n');
    let ghost lv = lines@.map_values(|v: Vec<char>| v@);
    let mut out: Vec<Vec<char>> = Vec::new();
    let mut i: usize = 0;
    assert(lv.take(0) =~= Seq::<Seq<char>>::empty());
    while i < lines.len()
        invariant
            i <= lines.len(),
            lv == lines@.map_values(|v: Vec<char>| v@),
            out@.map_values(|k: Vec<char>| k@) == keys_of_lines(lv.take(i as int)),
        decreases lines.len() - i,
    {
        assert(lv.take(i + 1).drop_last() =~= lv.take(i as int));
        assert(lv.take(i + 1).last() == lines@[i as int]@);
        let tl = trim_chars(lines[i].as_slice());
        if tl.len() > 0 && tl[0] != '#' {
            let parts = split_ws_exec(tl.as_slice());
            if parts.len() > 0 {
                let k = copy_range(parts[0].as_slice(), 0, parts[0].len());
                assert(k@ =~= parts@[0]@);
                let ghost before = out@;
                out.push(k);
                assert(out@.map_values(|k: Vec<char>| k@) =~= before.map_values(
                    |k: Vec<char>| k@,
                ).push(k@));
            }
        }
        i = i + 1;
    }
    assert(lv.take(lines.len() as int) =~= lv);
    out
}

pub fn parse_edge_file(text: &str) -> (edges: Vec<(Vec<char>, Vec<char>)>)
    ensures
        edges@.map_values(|e: (Vec<char>, Vec<char>)| (e.0@, e.1@)) == edge_file_pairs(text@),
{
    let t = chars_of(text);
    let lines = split_exec(t.as_slice(), '\n');
    let ghost lv = lines@.map_values(|v: Vec<char>| v@);
    let mut out: Vec<(Vec<char>, Vec<char>)> = Vec::new();
    let mut i: usize = 0;
    assert(lv.take(0) =~= Seq::<Seq<char>>::empty());
    while i < lines.len()
        invariant
            i <= lines.len(),
            lv == lines@.map_values(|v: Vec<char>| v@),
            out@.map_values(|e: (Vec<char>, Vec<char>)| (e.0@, e.1@)) == edges_of_lines(
                lv.take(i as int),
            ),
        decreases lines.len() - i,
    {
        assert(lv.take(i + 1).drop_last() =~= lv.take(i as int));
        assert(lv.take(i + 1).last() == lines@[i as int]@);
        let tl = trim_chars(lines[i].as_slice());
        if tl.len() > 0 && tl[0] != '#' {
            let parts = split_ws_exec(tl.as_slice());
            if parts.len() >= 2 {
                let a = copy_range(parts[0].as_slice(), 0, parts[0].len());
                let b = copy_range(parts[1].as_slice(), 0, parts[1].len());
                assert(a@ =~= parts@[0]@);
                assert(b@ =~= parts@[1]@);
                let ghost before = out@;
                out.push((a, b));
                assert(out@.map_values(|e: (Vec<char>, Vec<char>)| (e.0@, e.1@)) =~= before.map_values(
                    |e: (Vec<char>, Vec<char>)| (e.0@, e.1@),
                ).push((a@, b@)));
            }
        }
        i = i + 1;
    }
    assert(lv.take(lines.len() as int) =~= lv);
    out
}

// ---------------------------------------------------------------------------
// Relation uniqueness
// ---------------------------------------------------------------------------

/// Why a manifest cannot be compiled.
#[derive(PartialEq, Eq, Structural, Clone, Copy, Debug)]
pub enum ManifestError {
    /// Two relations join the same `(source domain, target domain)` pair.
    DuplicateRelation { src_domain: u16, tgt_domain: u16 },
}

/// The first position `j` at which a `(src, tgt)` pair repeats an earlier one.
pub open spec fn first_repeat(pairs: Seq<(u16, u16)>, j: int) -> bool {
    &&& 0 <= j < pairs.len()
    &&& exists|i: int| 0 <= i < j && pairs[i] == pairs[j]
    &&& forall|a: int, b: int| 0 <= a < b < j ==> pairs[a] != pairs[b]
}

/// Rejects a manifest in which two relations join the same domain pair,
/// naming the pair of the first repeated relation.
pub fn check_relation_uniqueness(pairs: &[(u16, u16)]) -> (r: Result<(), ManifestError>)
    ensures
        r is Ok <==> (forall|a: int, b: int| 0 <= a < b < pairs.len() ==> pairs@[a] != pairs@[b]),
        r matches Err(ManifestError::DuplicateRelation { src_domain, tgt_domain }) ==> exists|j: int|
            first_repeat(pairs@, j) && pairs@[j] == (src_domain, tgt_domain),
{
    let mut j: usize = 0;
    while j < pairs.len()
        invariant
            j <= pairs.len(),
            forall|a: int, b: int| 0 <= a < b < j ==> pairs@[a] != pairs@[b],
        decreases pairs.len() - j,
    {
        let mut i: usize = 0;
        while i < j
            invariant
                i <= j < pairs.len(),
                forall|a: int, b: int| 0 <= a < b < j ==> pairs@[a] != pairs@[b],
                forall|a: int| 0 <= a < i ==> pairs@[a] != pairs@[j as int],
            decreases j - i,
        {
            if pairs[i].0 == pairs[j].0 && pairs[i].1 == pairs[j].1 {
                assert(pairs@[i as int] == pairs@[j as int]);
                assert(first_repeat(pairs@, j as int));
                return Err(
                    ManifestError::DuplicateRelation { src_domain: pairs[j].0, tgt_domain: pairs[j].1 },
                );
            }
            i = i + 1;
        }
        j = j + 1;
    }
    Ok(())
}

} // verus!

verus! {

broadcast use vstd::seq_lib::group_to_multiset_ensures, vstd::multiset::group_multiset_axioms;

// ---------------------------------------------------------------------------
// Node numbering per domain
// ---------------------------------------------------------------------------

/// `keys` with `k` added at the end unless it is already there
/// (`entry(k).or_insert(len)`).
pub open spec fn add_key(keys: Seq<Seq<char>>, k: Seq<char>) -> Seq<Seq<char>> {
    if keys.contains(k) {
        keys
    } else {
        keys.push(k)
    }
}

pub open spec fn add_keys(keys: Seq<Seq<char>>, ks: Seq<Seq<char>>) -> Seq<Seq<char>>
    decreases ks.len(),
{
    if ks.len() == 0 {
        keys
    } else {
        add_key(add_keys(keys, ks.drop_last()), ks.last())
    }
}

/// The number of key `k` in `keys`.
pub open spec fn index_in(keys: Seq<Seq<char>>, k: Seq<char>) -> int {
    choose|i: int| 0 <= i < keys.len() && keys[i] == k
}

/// Node numbering of every domain: the keys of each domain in the order of
/// their first appearance.
pub struct NodeMaps {
    ids: Vec<u16>,
    maps: Vec<KeyIndex>,
}

pub open spec fn id_pos(ids: Seq<u16>, id: u16) -> int {
    choose|i: int| 0 <= i < ids.len() && ids[i] == id
}

impl NodeMaps {
    pub closed spec fn wf(&self) -> bool {
        &&& self.ids.len() == self.maps.len()
        &&& forall|i: int, j: int| 0 <= i < j < self.ids.len() ==> self.ids@[i] != self.ids@[j]
        &&& forall|i: int| 0 <= i < self.maps.len() ==> (#[trigger] self.maps@[i]).wf()
    }

    pub closed spec fn view(&self) -> Map<u16, Seq<Seq<char>>> {
        Map::new(
            |id: u16| self.ids@.contains(id),
            |id: u16| self.maps@[id_pos(self.ids@, id)].view(),
        )
    }

    proof fn lemma_pos(&self, i: int)
        requires
            self.wf(),
            0 <= i < self.ids.len(),
        ensures
            id_pos(self.ids@, self.ids@[i]) == i,
            self.view().contains_key(self.ids@[i]),
            self.view()[self.ids@[i]] == self.maps@[i].view(),
    {
        let id = self.ids@[i];
        assert(self.ids@.contains(id));
        let j = id_pos(self.ids@, id);
        assert(0 <= j < self.ids.len() && self.ids@[j] == id);
        if j != i {
            if j < i {
                assert(self.ids@[j] != self.ids@[i]);
            } else {
                assert(self.ids@[i] != self.ids@[j]);
            }
        }
    }

    pub proof fn lemma_distinct(&self, id: u16)
        requires
            self.wf(),
            self.view().contains_key(id),
        ensures
            distinct_seq(self.view()[id]),
    {
        let i = id_pos(self.ids@, id);
        self.lemma_pos(i);
        self.maps@[i].lemma_distinct();
    }

    pub fn new() -> (m: Self)
        ensures
            m.wf(),
            m.view() == Map::<u16, Seq<Seq<char>>>::empty(),
    {
        let m = NodeMaps { ids: Vec::new(), maps: Vec::new() };
        assert(m.view() =~= Map::<u16, Seq<Seq<char>>>::empty());
        m
    }

    fn find(&self, id: u16) -> (r: Option<usize>)
        requires
            self.wf(),
        ensures
            r matches Some(i) ==> i < self.ids.len() && self.ids@[i as int] == id,
            r is None ==> !self.view().contains_key(id),
    {
        let mut i: usize = 0;
        while i < self.ids.len()
            invariant
                i <= self.ids.len(),
                forall|j: int| 0 <= j < i ==> self.ids@[j] != id,
            decreases self.ids.len() - i,
        {
            if self.ids[i] == id {
                return Some(i);
            }
            i = i + 1;
        }
        None
    }

    /// Gives domain `id` an empty numbering.
    pub fn reset(&mut self, id: u16)
        requires
            old(self).wf(),
        ensures
            final(self).wf(),
            final(self).view() == old(self).view().insert(id, Seq::<Seq<char>>::empty()),
    {
        let ghost old_self = *self;
        match self.find(id) {
            Some(i) => {
                self.maps.set(i, KeyIndex::new());
                proof {
                    assert forall|k: int| 0 <= k < self.maps.len() implies (#[trigger] self.maps@[k]).wf() by {
                        if k != i {
                            assert(self.maps@[k] == old_self.maps@[k]);
                        }
                    }
                    assert forall|x: u16| #[trigger] self.ids@.contains(x) implies self.maps@[id_pos(self.ids@, x)].view() == (if x == id { Seq::<Seq<char>>::empty() } else { old_self.view()[x] }) by {
                        let p = choose|p: int| 0 <= p < self.ids.len() && self.ids@[p] == x;
                        self.lemma_pos(p);
                        old_self.lemma_pos(p);
                    }
                    assert(self.view() =~= old_self.view().insert(id, Seq::<Seq<char>>::empty()));
                }
            },
            None => {
                self.ids.push(id);
                self.maps.push(KeyIndex::new());
                proof {
                    assert forall|a: int, b: int| 0 <= a < b < self.ids.len() implies self.ids@[a] != self.ids@[b] by {
                        if b == self.ids.len() - 1 {
                            assert(old_self.ids@.contains(old_self.ids@[a]));
                        }
                    }
                    assert forall|k: int| 0 <= k < self.maps.len() implies (#[trigger] self.maps@[k]).wf() by {
                        if k < old_self.maps.len() {
                            assert(self.maps@[k] == old_self.maps@[k]);
                        }
                    }
                    assert forall|x: u16| self.ids@.contains(x) == (old_self.ids@.contains(x) || x == id) by {
                        if old_self.ids@.contains(x) {
                            let p = choose|p: int| 0 <= p < old_self.ids.len() && old_self.ids@[p] == x;
                            assert(self.ids@[p] == x);
                        }
                        if x == id {
                            assert(self.ids@[self.ids.len() - 1] == x);
                        }
                    }
                    assert forall|x: u16| #[trigger] self.ids@.contains(x) implies self.maps@[id_pos(self.ids@, x)].view() == (if x == id { Seq::<Seq<char>>::empty() } else { old_self.view()[x] }) by {
                        let p = choose|p: int| 0 <= p < self.ids.len() && self.ids@[p] == x;
                        self.lemma_pos(p);
                        if x != id {
                            assert(p < old_self.ids.len());
                            old_self.lemma_pos(p);
                        }
                    }
                    assert(self.view() =~= old_self.view().insert(id, Seq::<Seq<char>>::empty()));
                }
            },
        }
    }

    /// The number of `key` in domain `id`, adding it when new.
    pub fn get_or_insert(&mut self, id: u16, key: &[char]) -> (n: usize)
        requires
            old(self).wf(),
            old(self).view().contains_key(id),
            old(self).view()[id].len() < usize::MAX,
        ensures
            final(self).wf(),
            final(self).view() == old(self).view().insert(id, add_key(old(self).view()[id], key@)),
            n < final(self).view()[id].len(),
            final(self).view()[id][n as int] == key@,
            n == index_in(final(self).view()[id], key@),
    {
        let ghost old_self = *self;
        let i = match self.find(id) {
            Some(i) => i,
            None => {
                assert(false);
                0
            },
        };
        proof {
            old_self.lemma_pos(i as int);
        }
        let n = self.maps[i].get_or_insert(key);
        proof {
            assert forall|k: int| 0 <= k < self.maps.len() implies (#[trigger] self.maps@[k]).wf() by {
                if k != i {
                    assert(self.maps@[k] == old_self.maps@[k]);
                }
            }
            assert(self.ids@ == old_self.ids@);
            assert forall|x: u16| #[trigger] self.ids@.contains(x) implies self.maps@[id_pos(self.ids@, x)].view() == (if x == id { add_key(old_self.view()[id], key@) } else { old_self.view()[x] }) by {
                let p = choose|p: int| 0 <= p < self.ids.len() && self.ids@[p] == x;
                self.lemma_pos(p);
                old_self.lemma_pos(p);
            }
            assert(self.view() =~= old_self.view().insert(id, add_key(old_self.view()[id], key@)));
            self.lemma_pos(i as int);
            self.maps@[i as int].lemma_distinct();
            let v = self.view()[id];
            let c = index_in(v, key@);
            assert(0 <= c < v.len() && v[c] == key@);
        }
        n
    }

    /// The number of nodes of domain `id`.
    pub fn count(&self, id: u16) -> (n: usize)
        requires
            self.wf(),
            self.view().contains_key(id),
        ensures
            n == self.view()[id].len(),
    {
        let i = match self.find(id) {
            Some(i) => i,
            None => {
                assert(false);
                0
            },
        };
        proof {
            self.lemma_pos(i as int);
        }
        self.maps[i].len()
    }

    /// The key of node `n` of domain `id`.
    pub fn key_of(&self, id: u16, n: usize) -> (k: &Vec<char>)
        requires
            self.wf(),
            self.view().contains_key(id),
            n < self.view()[id].len(),
        ensures
            k@ == self.view()[id][n as int],
    {
        let i = match self.find(id) {
            Some(i) => i,
            None => {
                assert(false);
                0
            },
        };
        proof {
            self.lemma_pos(i as int);
        }
        self.maps[i].key(n)
    }
}

} // verus!

verus! {

// ---------------------------------------------------------------------------
// Relation topology
// ---------------------------------------------------------------------------

/// A declared domain: its id and, when it names a data file, the keys read
/// from it.
pub struct DomainInput {
    pub id: u16,
    pub file_keys: Option<Vec<Vec<char>>>,
}

/// A declared relation with the `(source key, target key)` pairs of its edge
/// file, in file order.
pub struct RelationInput {
    pub src_domain: u16,
    pub tgt_domain: u16,
    pub edges: Vec<(Vec<char>, Vec<char>)>,
}

pub open spec fn keys_view(ks: Seq<Vec<char>>) -> Seq<Seq<char>> {
    ks.map_values(|k: Vec<char>| k@)
}

pub open spec fn edges_view(es: Seq<(Vec<char>, Vec<char>)>) -> Seq<(Seq<char>, Seq<char>)> {
    es.map_values(|e: (Vec<char>, Vec<char>)| (e.0@, e.1@))
}

pub open spec fn domain_view(d: DomainInput) -> (u16, Option<Seq<Seq<char>>>) {
    (
        d.id,
        match d.file_keys {
            Some(ks) => Some(keys_view(ks@)),
            None => None,
        },
    )
}

/// Every declared domain starts with no nodes.
pub open spec fn initial_maps(ds: Seq<(u16, Option<Seq<Seq<char>>>)>) -> Map<u16, Seq<Seq<char>>>
    decreases ds.len(),
{
    if ds.len() == 0 {
        Map::empty()
    } else {
        initial_maps(ds.drop_last()).insert(ds.last().0, seq![])
    }
}

/// The keys of the domain files numbered, domain by domain.
pub open spec fn load_domain_files(
    m: Map<u16, Seq<Seq<char>>>,
    ds: Seq<(u16, Option<Seq<Seq<char>>>)>,
) -> Map<u16, Seq<Seq<char>>>
    decreases ds.len(),
{
    if ds.len() == 0 {
        m
    } else {
        let m1 = load_domain_files(m, ds.drop_last());
        match ds.last().1 {
            Some(ks) => m1.insert(ds.last().0, add_keys(m1[ds.last().0], ks)),
            None => m1,
        }
    }
}

/// Numbering the endpoints of `edges` (source first) gives the new
/// numbering and, per edge, its `(source number, target number)`.
pub open spec fn edge_fold(
    m: Map<u16, Seq<Seq<char>>>,
    src_d: u16,
    tgt_d: u16,
    edges: Seq<(Seq<char>, Seq<char>)>,
) -> (Map<u16, Seq<Seq<char>>>, Seq<(int, int)>)
    decreases edges.len(),
{
    if edges.len() == 0 {
        (m, seq![])
    } else {
        let (m0, ts) = edge_fold(m, src_d, tgt_d, edges.drop_last());
        let e = edges.last();
        let m1 = m0.insert(src_d, add_key(m0[src_d], e.0));
        let si = index_in(m1[src_d], e.0);
        let m2 = m1.insert(tgt_d, add_key(m1[tgt_d], e.1));
        let ti = index_in(m2[tgt_d], e.1);
        (m2, ts.push((si, ti)))
    }
}

/// Sort keys of numbered edges: source first, then target, then position in
/// the file.
pub open spec fn pack_edges(ts: Seq<(int, int)>) -> Seq<(u64, u64)> {
    Seq::new(ts.len(), |i: int| (ts[i].0 as u64, (ts[i].1 * 0x1_0000_0000 + i) as u64))
}

/// A compiled relation: CSR over the source domain's nodes, edges ordered by
/// source then target (ties in file order).
pub struct CompiledRelation {
    pub src_domain: u16,
    pub tgt_domain: u16,
    pub src_domain_count: u32,
    pub edges_count: u64,
    pub row_offsets: Vec<u32>,
    pub col_indices: Vec<u32>,
    /// For each CSR edge, its position in the edge file.
    pub edge_rows: Vec<usize>,
}

/// `c` is the CSR of the numbered edges `ts` over `count` source nodes.
pub open spec fn relation_compiled(
    c: CompiledRelation,
    src_d: u16,
    tgt_d: u16,
    ts: Seq<(int, int)>,
    count: int,
) -> bool {
    let ord = sorted_of(pack_edges(ts));
    &&& c.src_domain == src_d
    &&& c.tgt_domain == tgt_d
    &&& c.src_domain_count == count
    &&& c.edges_count == ts.len()
    &&& csr_offsets_ok(ord.map_values(|p: (u64, u64)| p.0 as u32), count, c.row_offsets@)
    &&& c.col_indices@.len() == ts.len()
    &&& c.edge_rows@.len() == ts.len()
    &&& forall|k: int|
        0 <= k < ts.len() ==> {
            &&& c.edge_rows@[k] == ord[k].1 % 0x1_0000_0000
            &&& c.col_indices@[k] == ts[c.edge_rows@[k] as int].1
        }
}

/// Every compiled relation is a well-formed CSR: one row offset more than
/// there are source nodes, starting at 0, never decreasing, and ending at
/// the edge count, which is also the number of column indices.
pub proof fn law_compiled_relations_are_csr(
    c: CompiledRelation,
    src_d: u16,
    tgt_d: u16,
    ts: Seq<(int, int)>,
    count: int,
)
    requires
        relation_compiled(c, src_d, tgt_d, ts, count),
    ensures
        c.row_offsets@.len() == count + 1,
        c.row_offsets@[0] == 0,
        forall|i: int| 0 <= i < count ==> #[trigger] c.row_offsets@[i] <= c.row_offsets@[i + 1],
        c.row_offsets@[count] == c.edges_count,
        c.col_indices@.len() == c.edges_count,
{
    crate::csr::lemma_sorted_of_exists(pack_edges(ts));
}

/// Row offsets that never decrease, compared at any two positions.
#[verifier::opaque]
pub open spec fn offsets_ordered(off: Seq<u32>, n: int) -> bool {
    forall|i: int, j: int| 0 <= i <= j <= n ==> off[i] <= off[j]
}

proof fn lemma_offsets_ordered(off: Seq<u32>, n: int)
    requires
        n >= 0,
        off.len() == n + 1,
        forall|i: int| 0 <= i < n ==> #[trigger] off[i] <= off[i + 1],
    ensures
        offsets_ordered(off, n),
{
    lemma_offsets_ordered_all(off, n);
    reveal(offsets_ordered);
}

proof fn lemma_offsets_ordered_all(off: Seq<u32>, n: int)
    requires
        n >= 0,
        off.len() == n + 1,
        forall|i: int| 0 <= i < n ==> #[trigger] off[i] <= off[i + 1],
    ensures
        forall|i: int, j: int| 0 <= i <= j <= n ==> off[i] <= off[j],
    decreases n,
{
    if n > 0 {
        let p = off.take(n);
        assert forall|i: int| 0 <= i < n - 1 implies #[trigger] p[i] <= p[i + 1] by {
            assert(p[i] == off[i] && p[i + 1] == off[i + 1]);
        }
        lemma_offsets_ordered_all(p, n - 1);
        assert forall|i: int, j: int| 0 <= i <= j <= n implies off[i] <= off[j] by {
            if j < n {
                assert(p[i] == off[i] && p[j] == off[j]);
            } else if i < n {
                assert(p[i] == off[i] && p[n - 1] == off[n - 1]);
                assert(off[n - 1] <= off[n]);
            }
        }
    }
}

/// `ord` holds the packed edges of `ts`, in some order.
#[verifier::opaque]
pub open spec fn same_edges(ord: Seq<(u64, u64)>, ts: Seq<(int, int)>) -> bool {
    ord.to_multiset() == pack_edges(ts).to_multiset()
}

proof fn lemma_packed_origin(ts: Seq<(int, int)>, ord: Seq<(u64, u64)>, k: int) -> (j: int)
    requires
        same_edges(ord, ts),
        0 <= k < ord.len(),
        ts.len() <= 0x1_0000_0000,
        forall|q: int| 0 <= q < ts.len() ==> 0 <= #[trigger] ts[q].0 < 0x1_0000_0000 && 0 <= ts[q].1 < 0x1_0000_0000,
    ensures
        0 <= j < ts.len(),
        ord[k].0 == ts[j].0,
        ord[k].1 == ts[j].1 * 0x1_0000_0000 + j,
        ord[k].1 % 0x1_0000_0000 == j,
{
    reveal(same_edges);
    let pk = pack_edges(ts);
    assert(ord.contains(ord[k]));
    assert(ord.to_multiset().count(ord[k]) > 0);
    assert(pk.to_multiset().count(ord[k]) > 0);
    assert(pk.contains(ord[k]));
    let j = choose|j: int| 0 <= j < pk.len() && pk[j] == ord[k];
    assert(0 <= ts[j].1 * 0x1_0000_0000 + j < 0x1_0000_0000 * 0x1_0000_0000) by (nonlinear_arith)
        requires
            0 <= ts[j].1 < 0x1_0000_0000,
            0 <= j < 0x1_0000_0000,
    ;
    assert((ts[j].1 * 0x1_0000_0000 + j) % 0x1_0000_0000 == j) by (nonlinear_arith)
        requires
            0 <= ts[j].1,
            0 <= j < 0x1_0000_0000,
    ;
    j
}

/// Two positions of one CSR row hold edges of the same source.
proof fn lemma_same_row(srcs: Seq<u32>, off: Seq<u32>, count: int, u: int, k: int)
    requires
        crate::csr::csr_offsets_ok(srcs, count, off),
        offsets_ordered(off, count),
        0 <= u < count,
        off[u] <= k < off[u + 1],
    ensures
        srcs[k] == u,
{
    reveal(offsets_ordered);
    assert(off[u + 1] <= off[count]);
    assert(srcs[k] < count && off[srcs[k] as int] <= k < off[srcs[k] + 1]);
    if (srcs[k] as int) < u {
        assert(off[srcs[k] + 1] <= off[u]);
    }
    if (srcs[k] as int) > u {
        assert(off[u + 1] <= off[srcs[k] as int]);
    }
}

/// Sorted packed edges of one source come in order of target.
proof fn lemma_sorted_targets(ts: Seq<(int, int)>, ord: Seq<(u64, u64)>, k: int, l: int) -> (r: (int, int))
    requires
        crate::sort::sorted_pairs(ord),
        same_edges(ord, ts),
        0 <= k < l < ord.len(),
        ord[k].0 == ord[l].0,
        ts.len() <= 0x1_0000_0000,
        forall|q: int| 0 <= q < ts.len() ==> 0 <= #[trigger] ts[q].0 < 0x1_0000_0000 && 0 <= ts[q].1 < 0x1_0000_0000,
    ensures
        0 <= r.0 < ts.len(),
        0 <= r.1 < ts.len(),
        ord[k].1 % 0x1_0000_0000 == r.0,
        ord[l].1 % 0x1_0000_0000 == r.1,
        ts[r.0].1 <= ts[r.1].1,
{
    let jk = lemma_packed_origin(ts, ord, k);
    let jl = lemma_packed_origin(ts, ord, l);
    assert(crate::sort::pair_le(ord[k], ord[l]));
    assert(ts[jk].1 <= ts[jl].1) by (nonlinear_arith)
        requires
            ts[jk].1 * 0x1_0000_0000 + jk <= ts[jl].1 * 0x1_0000_0000 + jl,
            0 <= jk < 0x1_0000_0000,
            0 <= jl < 0x1_0000_0000,
    ;
    (jk, jl)
}

proof fn lemma_source_bounded(ts: Seq<(int, int)>, ord: Seq<(u64, u64)>, k: int)
    requires
        same_edges(ord, ts),
        0 <= k < ord.len(),
        ts.len() <= 0x1_0000_0000,
        forall|q: int| 0 <= q < ts.len() ==> 0 <= #[trigger] ts[q].0 < 0x1_0000_0000 && 0 <= ts[q].1 < 0x1_0000_0000,
    ensures
        ord[k].0 < 0x1_0000_0000,
{
    let _ = lemma_packed_origin(ts, ord, k);
}

#[verifier::spinoff_prover]
#[verifier::rlimit(40)]
proof fn lemma_row_in_order(
    c: CompiledRelation,
    ts: Seq<(int, int)>,
    ord: Seq<(u64, u64)>,
    count: int,
    u: int,
    k: int,
    l: int,
)
    requires
        crate::sort::sorted_pairs(ord),
        same_edges(ord, ts),
        ord.len() == ts.len(),
        crate::csr::csr_offsets_ok(ord.map_values(|p: (u64, u64)| p.0 as u32), count, c.row_offsets@),
        offsets_ordered(c.row_offsets@, count),
        ts.len() <= 0x1_0000_0000,
        forall|q: int| 0 <= q < ts.len() ==> 0 <= #[trigger] ts[q].0 < 0x1_0000_0000 && 0 <= ts[q].1 < 0x1_0000_0000,
        forall|q: int|
            0 <= q < ts.len() ==> {
                &&& c.edge_rows@[q] == ord[q].1 % 0x1_0000_0000
                &&& #[trigger] c.col_indices@[q] == ts[c.edge_rows@[q] as int].1
            },
        0 <= u < count,
        c.row_offsets@[u] <= k < l < c.row_offsets@[u + 1],
    ensures
        c.col_indices@[k] <= c.col_indices@[l],
{
    let off = c.row_offsets@;
    let srcs = ord.map_values(|p: (u64, u64)| p.0 as u32);
    assert(off[u + 1] <= off[count]) by {
        reveal(offsets_ordered);
    }
    lemma_same_row(srcs, off, count, u, k);
    lemma_same_row(srcs, off, count, u, l);
    lemma_source_bounded(ts, ord, k);
    lemma_source_bounded(ts, ord, l);
    assert(srcs[k] == ord[k].0 as u32 && srcs[l] == ord[l].0 as u32);
    assert(ord[k].0 == ord[l].0);
    let r = lemma_sorted_targets(ts, ord, k, l);
    assert(c.col_indices@[k] == ts[c.edge_rows@[k] as int].1);
    assert(c.col_indices@[l] == ts[c.edge_rows@[l] as int].1);
}

proof fn lemma_compiled_offsets(c: CompiledRelation, src_d: u16, tgt_d: u16, ts: Seq<(int, int)>, count: int)
    requires
        relation_compiled(c, src_d, tgt_d, ts, count),
    ensures
        crate::csr::csr_offsets_ok(sorted_of(pack_edges(ts)).map_values(|p: (u64, u64)| p.0 as u32), count, c.row_offsets@),
{
}

proof fn lemma_compiled_columns(c: CompiledRelation, src_d: u16, tgt_d: u16, ts: Seq<(int, int)>, count: int)
    requires
        relation_compiled(c, src_d, tgt_d, ts, count),
    ensures
        forall|q: int|
            0 <= q < ts.len() ==> {
                &&& c.edge_rows@[q] == sorted_of(pack_edges(ts))[q].1 % 0x1_0000_0000
                &&& #[trigger] c.col_indices@[q] == ts[c.edge_rows@[q] as int].1
            },
{
}

#[verifier::spinoff_prover]
proof fn lemma_compiled_row_in_order(
    c: CompiledRelation,
    src_d: u16,
    tgt_d: u16,
    ts: Seq<(int, int)>,
    count: int,
    u: int,
    k: int,
    l: int,
)
    requires
        relation_compiled(c, src_d, tgt_d, ts, count),
        ts.len() <= 0x1_0000_0000,
        forall|q: int| 0 <= q < ts.len() ==> 0 <= #[trigger] ts[q].0 < 0x1_0000_0000 && 0 <= ts[q].1 < 0x1_0000_0000,
        0 <= u < count,
        c.row_offsets@[u] <= k < l < c.row_offsets@[u + 1],
    ensures
        c.col_indices@[k] <= c.col_indices@[l],
{
    let pk = pack_edges(ts);
    let ord = sorted_of(pk);
    crate::csr::lemma_sorted_of_exists(pk);
    law_compiled_relations_are_csr(c, src_d, tgt_d, ts, count);
    lemma_offsets_ordered(c.row_offsets@, count);
    lemma_compiled_offsets(c, src_d, tgt_d, ts, count);
    lemma_compiled_columns(c, src_d, tgt_d, ts, count);
    assert(ord.len() == ts.len());
    assert(same_edges(ord, ts)) by {
        reveal(same_edges);
    }
    lemma_row_in_order(c, ts, ord, count, u, k, l);
}

/// Within each row of a compiled relation the target nodes come in
/// ascending order (edges of equal target keep their file order), for
/// node numbers and edge counts within 32 bits.
pub proof fn law_compiled_rows_list_targets_in_order(
    c: CompiledRelation,
    src_d: u16,
    tgt_d: u16,
    ts: Seq<(int, int)>,
    count: int,
)
    requires
        relation_compiled(c, src_d, tgt_d, ts, count),
        ts.len() <= 0x1_0000_0000,
        forall|q: int| 0 <= q < ts.len() ==> 0 <= #[trigger] ts[q].0 < 0x1_0000_0000 && 0 <= ts[q].1 < 0x1_0000_0000,
    ensures
        forall|u: int, k: int, l: int|
            #![trigger c.row_offsets@[u], c.col_indices@[k], c.col_indices@[l]]
            0 <= u < count && c.row_offsets@[u] <= k < l < c.row_offsets@[u + 1] ==> c.col_indices@[k]
                <= c.col_indices@[l],
{
    assert forall|u: int, k: int, l: int|
        #![trigger c.row_offsets@[u], c.col_indices@[k], c.col_indices@[l]]
        0 <= u < count && c.row_offsets@[u] <= k < l < c.row_offsets@[u + 1] implies c.col_indices@[k]
            <= c.col_indices@[l] by {
        lemma_compiled_row_in_order(c, src_d, tgt_d, ts, count, u, k, l);
    }
}

pub proof fn lemma_add_key(keys: Seq<Seq<char>>, k: Seq<char>)
    requires
        distinct_seq(keys),
    ensures
        distinct_seq(add_key(keys, k)),
        add_key(keys, k).len() <= keys.len() + 1,
        add_key(keys, k).contains(k),
        forall|i: int| 0 <= i < keys.len() ==> add_key(keys, k)[i] == keys[i],
        add_key(keys, k).len() >= keys.len(),
{
    if !keys.contains(k) {
        let n = keys.push(k);
        assert(n[keys.len() as int] == k);
        assert forall|i: int, j: int| 0 <= i < n.len() && 0 <= j < n.len() && i != j implies n[i] != n[j] by {
            if i == keys.len() {
                assert(n[j] == keys[j]);
            } else if j == keys.len() {
                assert(n[i] == keys[i]);
            }
        }
    }
}

fn compile_relation(maps: &mut NodeMaps, r: &RelationInput) -> (c: CompiledRelation)
    requires
        old(maps).wf(),
        old(maps).view().contains_key(r.src_domain),
        old(maps).view().contains_key(r.tgt_domain),
        forall|id: u16| #[trigger]
            old(maps).view().contains_key(id) ==> old(maps).view()[id].len() + 2 * r.edges.len()
                < u32::MAX,
    ensures
        final(maps).wf(),
        ({
            let (m, ts) = edge_fold(old(maps).view(), r.src_domain, r.tgt_domain, edges_view(r.edges@));
            &&& final(maps).view() == m
            &&& relation_compiled(c, r.src_domain, r.tgt_domain, ts, m[r.src_domain].len() as int)
        }),
        forall|id: u16| #[trigger]
            final(maps).view().contains_key(id) == old(maps).view().contains_key(id),
        forall|id: u16| #[trigger]
            old(maps).view().contains_key(id) ==> final(maps).view()[id].len() <= old(maps).view()[id].len()
                + 2 * r.edges.len(),
{
    let ghost m0 = maps.view();
    let ghost ev = edges_view(r.edges@);
    let src_d = r.src_domain;
    let tgt_d = r.tgt_domain;
    let mut srcs_n: Vec<u32> = Vec::new();
    let mut tgts_n: Vec<u32> = Vec::new();
    let mut i: usize = 0;
    assert(ev.take(0) =~= Seq::<(Seq<char>, Seq<char>)>::empty());
    while i < r.edges.len()
        invariant
            i <= r.edges.len(),
            ev == edges_view(r.edges@),
            maps.wf(),
            src_d == r.src_domain,
            tgt_d == r.tgt_domain,
            maps.view().contains_key(src_d),
            maps.view().contains_key(tgt_d),
            forall|id: u16| #[trigger] maps.view().contains_key(id) == m0.contains_key(id),
            forall|id: u16| #[trigger]
                m0.contains_key(id) ==> maps.view()[id].len() <= m0[id].len() + 2 * i,
            forall|id: u16| #[trigger]
                m0.contains_key(id) ==> m0[id].len() + 2 * r.edges.len() < u32::MAX,
            maps.view() == edge_fold(m0, src_d, tgt_d, ev.take(i as int)).0,
            srcs_n@.len() == i,
            tgts_n@.len() == i,
            forall|k: int| 0 <= k < i ==> #[trigger] srcs_n@[k] == edge_fold(m0, src_d, tgt_d, ev.take(i as int)).1[k].0,
            forall|k: int| 0 <= k < i ==> #[trigger] tgts_n@[k] == edge_fold(m0, src_d, tgt_d, ev.take(i as int)).1[k].1,
            edge_fold(m0, src_d, tgt_d, ev.take(i as int)).1.len() == i,
            forall|k: int| 0 <= k < i ==> srcs_n@[k] < maps.view()[src_d].len(),
            forall|k: int| 0 <= k < i ==> tgts_n@[k] < maps.view()[tgt_d].len(),
        decreases r.edges.len() - i,
    {
        assert(ev.take(i + 1).drop_last() =~= ev.take(i as int));
        assert(ev.take(i + 1).last() == (r.edges@[i as int].0@, r.edges@[i as int].1@));
        let ghost before = maps.view();
        proof {
            maps.lemma_distinct(src_d);
            lemma_add_key(before[src_d], r.edges@[i as int].0@);
        }
        let s = maps.get_or_insert(src_d, r.edges[i].0.as_slice());
        let ghost mid = maps.view();
        proof {
            maps.lemma_distinct(tgt_d);
            lemma_add_key(mid[tgt_d], r.edges@[i as int].1@);
        }
        let t = maps.get_or_insert(tgt_d, r.edges[i].1.as_slice());
        proof {
            assert forall|id: u16| #[trigger] m0.contains_key(id) implies maps.view()[id].len() <= m0[id].len() + 2 * (i + 1) by {
                if id == src_d || id == tgt_d {
                    lemma_add_key(before[src_d], r.edges@[i as int].0@);
                }
            }
            assert forall|k: int| 0 <= k < i implies srcs_n@[k] < maps.view()[src_d].len() by {
                lemma_add_key(before[src_d], r.edges@[i as int].0@);
                lemma_add_key(mid[tgt_d], r.edges@[i as int].1@);
            }
            assert forall|k: int| 0 <= k < i implies tgts_n@[k] < maps.view()[tgt_d].len() by {
                lemma_add_key(before[src_d], r.edges@[i as int].0@);
                lemma_add_key(mid[tgt_d], r.edges@[i as int].1@);
            }
            lemma_add_key(mid[tgt_d], r.edges@[i as int].1@);
        }
        srcs_n.push(s as u32);
        tgts_n.push(t as u32);
        i = i + 1;
    }
    assert(ev.take(r.edges.len() as int) =~= ev);
    let ghost ts = edge_fold(m0, src_d, tgt_d, ev).1;
    let count = maps.count(src_d);
    // sort by (source, target * 2^32 + position)
    let mut keys: Vec<(u64, u64)> = Vec::new();
    let mut j: usize = 0;
    while j < srcs_n.len()
        invariant
            j <= srcs_n.len(),
            srcs_n@.len() == tgts_n@.len(),
            srcs_n@.len() == ts.len(),
            srcs_n@.len() < u32::MAX,
            forall|k: int| 0 <= k < srcs_n@.len() ==> #[trigger] srcs_n@[k] == ts[k].0,
            forall|k: int| 0 <= k < srcs_n@.len() ==> #[trigger] tgts_n@[k] == ts[k].1,
            keys@ == pack_edges(ts).take(j as int),
        decreases srcs_n.len() - j,
    {
        keys.push((srcs_n[j] as u64, (tgts_n[j] as u64) * 0x1_0000_0000u64 + j as u64));
        j = j + 1;
        assert(keys@ =~= pack_edges(ts).take(j as int));
    }
    assert(keys@ =~= pack_edges(ts));
    let ord = sort_pairs(keys.as_slice());
    proof {
        lemma_sorted_of(pack_edges(ts), ord@);
        assert(ord@.to_multiset().len() == ord@.len());
        assert(pack_edges(ts).to_multiset().len() == pack_edges(ts).len());
    }
    let ghost o = ord@;
    proof {
        assert forall|k: int| 0 <= k < o.len() implies (o[k].1 % 0x1_0000_0000) < ts.len() && o[k].0 == ts[(o[k].1 % 0x1_0000_0000) as int].0 && o[k].0 < count by {
            assert(o.to_multiset().count(o[k]) > 0);
            assert(pack_edges(ts).contains(o[k]));
            let q = choose|q: int| 0 <= q < pack_edges(ts).len() && pack_edges(ts)[q] == o[k];
            let t = ts[q].1;
            assert(tgts_n@[q] == ts[q].1);
            assert(0 <= t <= u32::MAX);
            assert((t * 0x1_0000_0000 + q) % 0x1_0000_0000 == q) by (nonlinear_arith)
                requires
                    0 <= q < 0x1_0000_0000,
                    t >= 0,
            ;
            assert(srcs_n@[q] == ts[q].0);
        }
    }
    let mut srcs: Vec<u32> = Vec::new();
    let mut cols: Vec<u32> = Vec::new();
    let mut rows: Vec<usize> = Vec::new();
    let mut k: usize = 0;
    while k < ord.len()
        invariant
            k <= ord.len(),
            ord@ == o,
            o.len() == ts.len(),
            srcs_n@.len() == ts.len(),
            tgts_n@.len() == ts.len(),
            forall|q: int| 0 <= q < srcs_n@.len() ==> #[trigger] tgts_n@[q] == ts[q].1,
            forall|q: int| 0 <= q < o.len() ==> (o[q].1 % 0x1_0000_0000) < ts.len(),
            srcs@ == o.take(k as int).map_values(|p: (u64, u64)| p.0 as u32),
            rows@.len() == k,
            cols@.len() == k,
            forall|q: int| 0 <= q < k ==> rows@[q] == o[q].1 % 0x1_0000_0000,
            forall|q: int| 0 <= q < k ==> cols@[q] == ts[rows@[q] as int].1,
        decreases ord.len() - k,
    {
        let (s, key2) = ord[k];
        let row = (key2 % 0x1_0000_0000u64) as usize;
        srcs.push(s as u32);
        rows.push(row);
        cols.push(tgts_n[row]);
        k = k + 1;
        assert(srcs@ =~= o.take(k as int).map_values(|p: (u64, u64)| p.0 as u32));
    }
    assert(o.take(o.len() as int) =~= o);
    proof {
        let sv = srcs@;
        assert forall|a: int, b: int| 0 <= a <= b < sv.len() implies sv[a] <= sv[b] by {
            if a < b {
                assert(pair_le(o[a], o[b]));
            }
        }
    }
    let off = csr_offsets(srcs.as_slice(), count);
    CompiledRelation {
        src_domain: src_d,
        tgt_domain: tgt_d,
        src_domain_count: count as u32,
        edges_count: srcs_n.len() as u64,
        row_offsets: off,
        col_indices: cols,
        edge_rows: rows,
    }
}


pub open spec fn relation_view(r: RelationInput) -> (u16, u16, Seq<(Seq<char>, Seq<char>)>) {
    (r.src_domain, r.tgt_domain, edges_view(r.edges@))
}

/// Compiling the relations in order: the final numbering and, per relation,
/// its numbered edges and its source domain's node count at that point.
pub open spec fn relations_fold(
    m: Map<u16, Seq<Seq<char>>>,
    rs: Seq<(u16, u16, Seq<(Seq<char>, Seq<char>)>)>,
) -> (Map<u16, Seq<Seq<char>>>, Seq<(Seq<(int, int)>, int)>)
    decreases rs.len(),
{
    if rs.len() == 0 {
        (m, seq![])
    } else {
        let (m0, outs) = relations_fold(m, rs.drop_last());
        let r = rs.last();
        let (m1, ts) = edge_fold(m0, r.0, r.1, r.2);
        (m1, outs.push((ts, m1[r.0].len() as int)))
    }
}

pub open spec fn file_key_total(ds: Seq<(u16, Option<Seq<Seq<char>>>)>) -> nat
    decreases ds.len(),
{
    if ds.len() == 0 {
        0
    } else {
        file_key_total(ds.drop_last()) + match ds.last().1 {
            Some(ks) => ks.len(),
            None => 0,
        }
    }
}

pub open spec fn edge_total(rs: Seq<(u16, u16, Seq<(Seq<char>, Seq<char>)>)>) -> nat
    decreases rs.len(),
{
    if rs.len() == 0 {
        0
    } else {
        edge_total(rs.drop_last()) + rs.last().2.len()
    }
}

pub open spec fn domain_declared(ds: Seq<DomainInput>, id: u16) -> bool {
    exists|k: int| 0 <= k < ds.len() && ds[k].id == id
}

proof fn lemma_file_total_prefix(ds: Seq<(u16, Option<Seq<Seq<char>>>)>, i: int)
    requires
        0 <= i <= ds.len(),
    ensures
        file_key_total(ds.take(i)) <= file_key_total(ds),
    decreases ds.len() - i,
{
    if i < ds.len() {
        lemma_file_total_prefix(ds, i + 1);
        assert(ds.take(i + 1).drop_last() =~= ds.take(i));
    } else {
        assert(ds.take(i) =~= ds);
    }
}

proof fn lemma_edge_total_prefix(rs: Seq<(u16, u16, Seq<(Seq<char>, Seq<char>)>)>, i: int)
    requires
        0 <= i <= rs.len(),
    ensures
        edge_total(rs.take(i)) <= edge_total(rs),
    decreases rs.len() - i,
{
    if i < rs.len() {
        lemma_edge_total_prefix(rs, i + 1);
        assert(rs.take(i + 1).drop_last() =~= rs.take(i));
    } else {
        assert(rs.take(i) =~= rs);
    }
}

proof fn lemma_initial_maps(ds: Seq<(u16, Option<Seq<Seq<char>>>)>)
    ensures
        forall|id: u16|
            #[trigger] initial_maps(ds).contains_key(id) <==> exists|k: int|
                0 <= k < ds.len() && ds[k].0 == id,
        forall|id: u16| #[trigger] initial_maps(ds).contains_key(id) ==> initial_maps(ds)[id].len() == 0,
    decreases ds.len(),
{
    if ds.len() > 0 {
        let p = ds.drop_last();
        lemma_initial_maps(p);
        assert(initial_maps(ds) == initial_maps(p).insert(ds.last().0, Seq::<Seq<char>>::empty()));
        assert forall|id: u16|
            #[trigger] initial_maps(ds).contains_key(id) <==> exists|k: int|
                0 <= k < ds.len() && ds[k].0 == id by {
            if exists|k: int| 0 <= k < ds.len() && ds[k].0 == id {
                let k = choose|k: int| 0 <= k < ds.len() && ds[k].0 == id;
                if k < ds.len() - 1 {
                    assert(p[k].0 == id);
                } else {
                    assert(ds.last().0 == id);
                }
            }
            if exists|k: int| 0 <= k < p.len() && p[k].0 == id {
                let k = choose|k: int| 0 <= k < p.len() && p[k].0 == id;
                assert(ds[k].0 == id);
            }
        }
    }
}

/// Numbers the nodes of every domain and compiles every relation to CSR,
/// as a snapshot manifest describes them: domains start empty, domain files
/// add their keys in order, then each relation's edge file adds its
/// endpoints (source, then target, per line) and becomes a CSR whose
/// edges are ordered by source, then target, then file position.
/// A manifest that repeats a `(source, target)` domain pair is refused.
#[verifier::spinoff_prover]
#[verifier::rlimit(40)]
pub fn compile_topology(domains: &[DomainInput], relations: &[RelationInput]) -> (r: Result<
    (NodeMaps, Vec<CompiledRelation>),
    ManifestError,
>)
    requires
        forall|i: int|
            0 <= i < relations.len() ==> domain_declared(domains@, #[trigger] relations@[i].src_domain)
                && domain_declared(domains@, relations@[i].tgt_domain),
        file_key_total(domains@.map_values(|d: DomainInput| domain_view(d))) + 2 * edge_total(
            relations@.map_values(|r: RelationInput| relation_view(r)),
        ) < u32::MAX,
    ensures
        r is Err <==> exists|a: int, b: int|
            0 <= a < b < relations.len() && relations@[a].src_domain == relations@[b].src_domain
                && relations@[a].tgt_domain == relations@[b].tgt_domain,
        r matches Err(ManifestError::DuplicateRelation { src_domain, tgt_domain }) ==> exists|j: int|
            first_repeat(relations@.map_values(|r: RelationInput| (r.src_domain, r.tgt_domain)), j)
                && relations@[j].src_domain == src_domain && relations@[j].tgt_domain == tgt_domain,
        r matches Ok((maps, crs)) ==> {
            let dv = domains@.map_values(|d: DomainInput| domain_view(d));
            let rv = relations@.map_values(|r: RelationInput| relation_view(r));
            let (m, outs) = relations_fold(load_domain_files(initial_maps(dv), dv), rv);
            &&& maps.wf()
            &&& maps.view() == m
            &&& forall|id: u16| #[trigger] maps.view().contains_key(id) <==> domain_declared(domains@, id)
            &&& crs.len() == relations.len()
            &&& forall|i: int|
                0 <= i < crs.len() ==> relation_compiled(
                    #[trigger] crs@[i],
                    relations@[i].src_domain,
                    relations@[i].tgt_domain,
                    outs[i].0,
                    outs[i].1,
                )
        },
{
    let ghost dv = domains@.map_values(|d: DomainInput| domain_view(d));
    let ghost rv = relations@.map_values(|r: RelationInput| relation_view(r));
    let ghost pv = relations@.map_values(|r: RelationInput| (r.src_domain, r.tgt_domain));
    // duplicate relations are refused before any work
    let mut pairs: Vec<(u16, u16)> = Vec::new();
    let mut q: usize = 0;
    while q < relations.len()
        invariant
            q <= relations.len(),
            pv == relations@.map_values(|r: RelationInput| (r.src_domain, r.tgt_domain)),
            pairs@ == pv.take(q as int),
        decreases relations.len() - q,
    {
        pairs.push((relations[q].src_domain, relations[q].tgt_domain));
        q = q + 1;
        assert(pairs@ =~= pv.take(q as int));
    }
    assert(pairs@ =~= pv);
    match check_relation_uniqueness(pairs.as_slice()) {
        Err(e) => {
            proof {
                let ManifestError::DuplicateRelation { src_domain, tgt_domain } = e;
                let j = choose|j: int| first_repeat(pairs@, j) && pairs@[j] == (src_domain, tgt_domain);
                let a = choose|a: int| 0 <= a < j && pairs@[a] == pairs@[j];
                assert(pv[a] == (relations@[a].src_domain, relations@[a].tgt_domain));
                assert(pv[j] == (relations@[j].src_domain, relations@[j].tgt_domain));
            }
            return Err(e);
        },
        Ok(()) => {
            proof {
                assert forall|a: int, b: int|
                    0 <= a < b < relations.len() implies !(relations@[a].src_domain
                        == relations@[b].src_domain && relations@[a].tgt_domain
                        == relations@[b].tgt_domain) by {
                    assert(pairs@[a] != pairs@[b]);
                }
            }
        },
    }
    let mut maps = NodeMaps::new();
    let mut i: usize = 0;
    while i < domains.len()
        invariant
            i <= domains.len(),
            dv == domains@.map_values(|d: DomainInput| domain_view(d)),
            maps.wf(),
            maps.view() == initial_maps(dv.take(i as int)),
        decreases domains.len() - i,
    {
        assert(dv.take(i + 1).drop_last() =~= dv.take(i as int));
        maps.reset(domains[i].id);
        i = i + 1;
    }
    assert(dv.take(domains.len() as int) =~= dv);
    let ghost m_init = initial_maps(dv);
    proof {
        lemma_initial_maps(dv);
    }
    let mut i: usize = 0;
    while i < domains.len()
        invariant
            i <= domains.len(),
            dv == domains@.map_values(|d: DomainInput| domain_view(d)),
            m_init == initial_maps(dv),
            maps.wf(),
            maps.view() == load_domain_files(m_init, dv.take(i as int)),
            forall|id: u16| #[trigger] maps.view().contains_key(id) <==> m_init.contains_key(id),
            forall|id: u16| #[trigger]
                maps.view().contains_key(id) ==> maps.view()[id].len() <= file_key_total(
                    dv.take(i as int),
                ),
            forall|id: u16| #[trigger] m_init.contains_key(id) <==> exists|k: int|
                0 <= k < dv.len() && dv[k].0 == id,
            file_key_total(dv) < u32::MAX,
        decreases domains.len() - i,
    {
        assert(dv.take(i + 1).drop_last() =~= dv.take(i as int));
        assert(dv[i as int] == domain_view(domains@[i as int]));
        proof {
            lemma_file_total_prefix(dv, i + 1);
        }
        let id = domains[i].id;
        assert(maps.view().contains_key(id)) by {
            assert(dv[i as int].0 == id);
        }
        match &domains[i].file_keys {
            None => {},
            Some(ks) => {
                let ghost m1 = maps.view();
                let ghost kv = keys_view(ks@);
                let mut j: usize = 0;
                assert(kv.take(0) =~= Seq::<Seq<char>>::empty());
                while j < ks.len()
                    invariant
                        j <= ks.len(),
                        kv == keys_view(ks@),
                        m1.contains_key(id),
                        maps.wf(),
                        maps.view() == m1.insert(id, add_keys(m1[id], kv.take(j as int))),
                        forall|x: u16| #[trigger] m1.contains_key(x) ==> m1[x].len() + kv.len() < u32::MAX,
                        add_keys(m1[id], kv.take(j as int)).len() <= m1[id].len() + j,
                    decreases ks.len() - j,
                {
                    assert(kv.take(j + 1).drop_last() =~= kv.take(j as int));
                    assert(kv.take(j + 1).last() == ks@[j as int]@);
                    let _ = maps.get_or_insert(id, ks[j].as_slice());
                    j = j + 1;
                }
                assert(kv.take(ks.len() as int) =~= kv);
            },
        }
        proof {
            assert forall|x: u16| #[trigger] maps.view().contains_key(x) implies maps.view()[x].len()
                <= file_key_total(dv.take(i + 1)) by {
            }
        }
        i = i + 1;
    }
    assert(dv.take(domains.len() as int) =~= dv);
    let ghost m_loaded = maps.view();
    let mut crs: Vec<CompiledRelation> = Vec::new();
    let mut k: usize = 0;
    while k < relations.len()
        invariant
            k <= relations.len(),
            rv == relations@.map_values(|r: RelationInput| relation_view(r)),
            maps.wf(),
            maps.view() == relations_fold(m_loaded, rv.take(k as int)).0,
            crs@.len() == k,
            relations_fold(m_loaded, rv.take(k as int)).1.len() == k,
            forall|q: int|
                0 <= q < k ==> relation_compiled(
                    #[trigger] crs@[q],
                    relations@[q].src_domain,
                    relations@[q].tgt_domain,
                    relations_fold(m_loaded, rv.take(k as int)).1[q].0,
                    relations_fold(m_loaded, rv.take(k as int)).1[q].1,
                ),
            forall|id: u16| #[trigger] maps.view().contains_key(id) <==> m_init.contains_key(id),
            forall|id: u16| #[trigger] m_init.contains_key(id) <==> exists|x: int|
                0 <= x < dv.len() && dv[x].0 == id,
            dv == domains@.map_values(|d: DomainInput| domain_view(d)),
            forall|id: u16| #[trigger]
                maps.view().contains_key(id) ==> maps.view()[id].len() <= file_key_total(dv) + 2
                    * edge_total(rv.take(k as int)),
            file_key_total(dv) + 2 * edge_total(rv) < u32::MAX,
            forall|q: int|
                0 <= q < relations.len() ==> domain_declared(domains@, #[trigger] relations@[q].src_domain)
                    && domain_declared(domains@, relations@[q].tgt_domain),
        decreases relations.len() - k,
    {
        let ghost before = maps.view();
        assert(rv.take(k + 1).drop_last() =~= rv.take(k as int));
        assert(rv[k as int] == relation_view(relations@[k as int]));
        proof {
            lemma_edge_total_prefix(rv, k + 1);
            let s = relations@[k as int].src_domain;
            let t = relations@[k as int].tgt_domain;
            let a = choose|a: int| 0 <= a < domains@.len() && domains@[a].id == s;
            let b = choose|b: int| 0 <= b < domains@.len() && domains@[b].id == t;
            assert(dv[a].0 == s);
            assert(dv[b].0 == t);
        }
        let c = compile_relation(&mut maps, &relations[k]);
        let ghost crs_before = crs@;
        crs.push(c);
        k = k + 1;
        proof {
            assert forall|q: int|
                0 <= q < k implies relation_compiled(
                    #[trigger] crs@[q],
                    relations@[q].src_domain,
                    relations@[q].tgt_domain,
                    relations_fold(m_loaded, rv.take(k as int)).1[q].0,
                    relations_fold(m_loaded, rv.take(k as int)).1[q].1,
                ) by {
                if q < k - 1 {
                    assert(crs@[q] == crs_before[q]);
                }
            }
        }
    }
    assert(rv.take(relations.len() as int) =~= rv);
    proof {
        assert forall|id: u16| #[trigger] maps.view().contains_key(id) <==> domain_declared(domains@, id) by {
            if maps.view().contains_key(id) {
                let x = choose|x: int| 0 <= x < dv.len() && dv[x].0 == id;
                assert(domains@[x].id == id);
            }
            if domain_declared(domains@, id) {
                let x = choose|x: int| 0 <= x < domains@.len() && domains@[x].id == id;
                assert(dv[x].0 == id);
            }
        }
    }
    Ok((maps, crs))
}

} // verus!
