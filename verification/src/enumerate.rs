//! The level-synchronous directory enumeration driver: it keeps the
//! frontier of directories awaiting a bulk query, the visited set that
//! guards against cycles, and the flat entry stream being collected. The
//! queries themselves are plain input handed in per directory, so workers
//! may run them in any order or in parallel.

use vstd::prelude::*;

use crate::system::ScanEntry;
use crate::text::spec_join;
use crate::text::join_path;

verus! {

/// One directory entry as a bulk query reports it: a bare name, a byte
/// size, and whether it is a file.
pub struct RawEntry {
    pub name: String,
    pub size: u64,
    pub is_file: bool,
}

/// Whether `s` ends with `suf`.
pub open spec fn spec_ends_with(s: Seq<char>, suf: Seq<char>) -> bool {
    s.len() >= suf.len() && s.skip(s.len() - suf.len()) == suf
}

/// The frontier entries kept by one dedup round: first occurrences not yet
/// visited.
pub open spec fn spec_dedup(visited: Seq<Seq<char>>, frontier: Seq<Seq<char>>) -> Seq<Seq<char>>
    decreases frontier.len(),
{
    if frontier.len() == 0 {
        Seq::empty()
    } else if visited.contains(frontier[0]) {
        spec_dedup(visited, frontier.skip(1))
    } else {
        seq![frontier[0]] + spec_dedup(visited.push(frontier[0]), frontier.skip(1))
    }
}

/// The directories of a deduped round that are actually queried: bundle
/// directories are treated as opaque leaves and skipped.
pub open spec fn spec_queryable(dirs: Seq<Seq<char>>) -> Seq<Seq<char>>
    decreases dirs.len(),
{
    if dirs.len() == 0 {
        Seq::empty()
    } else if spec_ends_with(dirs[0], ".framework"@) {
        spec_queryable(dirs.skip(1))
    } else {
        seq![dirs[0]] + spec_queryable(dirs.skip(1))
    }
}

/// The full path of one reported entry under `dir`.
pub open spec fn spec_entry_path(dir: Seq<char>, name: Seq<char>) -> Seq<char> {
    spec_join(dir, name)
}

/// The scan driver's state between rounds.
pub struct Enumerator {
    pub frontier: Vec<String>,
    pub visited: Vec<String>,
    pub results: Vec<ScanEntry>,
}

impl Enumerator {
    /// Starts a scan at `root`: the frontier holds only the root, nothing
    /// is visited, nothing collected.
    pub fn new(root: String) -> (r: Self)
        ensures
            r.frontier@.len() == 1 && r.frontier@[0]@ == root@,
            r.visited@.len() == 0,
            r.results@.len() == 0,
    {
        let mut frontier: Vec<String> = Vec::new();
        frontier.push(root);
        Enumerator { frontier, visited: Vec::new(), results: Vec::new() }
    }

    /// Whether any directory still awaits a query.
    pub fn done(&self) -> (r: bool)
        ensures
            r == (self.frontier@.len() == 0),
    {
        self.frontier.len() == 0
    }

    /// Takes the current frontier as the next round's query list: repeated
    /// and already visited directories are dropped (and remembered), and
    /// bundle directories are skipped as opaque leaves.
    pub fn take_round(&mut self) -> (r: Vec<String>)
        ensures
            final(self).frontier@.len() == 0,
            final(self).results == old(self).results,
            r.deep_view() == spec_queryable(
                spec_dedup(old(self).visited.deep_view(), old(self).frontier.deep_view()),
            ),
    {
        proof {
            reveal_strlit(".framework");
        }
        let mut out: Vec<String> = Vec::new();
        let ghost fv0 = old(self).frontier.deep_view();
        let ghost vis0 = self.visited.deep_view();
        proof {
            assert(fv0.skip(0) =~= fv0);
        }
        let mut i: usize = 0;
        while i < self.frontier.len()
            invariant
                i <= self.frontier@.len(),
                self.frontier == old(self).frontier,
                self.frontier.deep_view() == fv0,
                fv0.len() == self.frontier@.len(),
                self.results == old(self).results,
                spec_queryable(spec_dedup(vis0, fv0)) == out.deep_view() + spec_queryable(
                    spec_dedup(self.visited.deep_view(), fv0.skip(i as int)),
                ),
            decreases self.frontier.len() - i,
        {
            let ghost rest = fv0.skip(i as int);
            proof {
                assert(rest[0] == fv0[i as int]);
                assert(rest[0] == self.frontier@[i as int]@);
                assert(rest.skip(1) =~= fv0.skip(i + 1));
            }
            let dir = self.frontier[i].clone();
            if !self.contains_visited(&dir) {
                let ghost vpre = self.visited.deep_view();
                self.visited.push(dir.clone());
                proof {
                    assert(self.visited.deep_view() =~= vpre.push(dir@));
                    assert(!vpre.contains(rest[0]));
                    assert(spec_dedup(vpre, rest) == seq![rest[0]] + spec_dedup(
                        vpre.push(rest[0]),
                        rest.skip(1),
                    ));
                    let y = spec_queryable(spec_dedup(vpre.push(rest[0]), rest.skip(1)));
                    assert((seq![rest[0]] + spec_dedup(vpre.push(rest[0]), rest.skip(1)))[0]
                        == rest[0]);
                    assert((seq![rest[0]] + spec_dedup(vpre.push(rest[0]), rest.skip(1))).skip(1)
                        =~= spec_dedup(vpre.push(rest[0]), rest.skip(1)));
                }
                if !ends_with_framework(&dir) {
                    let ghost opre = out.deep_view();
                    out.push(dir);
                    proof {
                        let dd = spec_dedup(vpre.push(rest[0]), rest.skip(1));
                        assert(spec_queryable(seq![rest[0]] + dd) == seq![rest[0]]
                            + spec_queryable(dd));
                        assert(out.deep_view() =~= opre.push(rest[0]));
                        assert(opre.push(rest[0]) =~= opre + seq![rest[0]]);
                        assert((opre + seq![rest[0]]) + spec_queryable(dd) =~= opre + (
                        seq![rest[0]] + spec_queryable(dd)));
                    }
                } else {
                    proof {
                        let dd = spec_dedup(vpre.push(rest[0]), rest.skip(1));
                        assert(spec_queryable(seq![rest[0]] + dd) == spec_queryable(dd));
                    }
                }
            } else {
                proof {
                    assert(self.visited.deep_view().contains(rest[0]));
                    assert(spec_dedup(self.visited.deep_view(), rest) == spec_dedup(
                        self.visited.deep_view(),
                        rest.skip(1),
                    ));
                }
            }
            i = i + 1;
        }
        proof {
            assert(fv0.skip(i as int) =~= Seq::<Seq<char>>::empty());
            assert(out.deep_view() + Seq::<Seq<char>>::empty() =~= out.deep_view());
        }
        self.frontier.clear();
        out
    }

    /// Whether `dir` was already visited.
    fn contains_visited(&self, dir: &String) -> (r: bool)
        ensures
            r == self.visited.deep_view().contains(dir@),
    {
        let mut k: usize = 0;
        while k < self.visited.len()
            invariant
                k <= self.visited@.len(),
                forall|x: int| 0 <= x < k ==> self.visited.deep_view()[x] != dir@,
            decreases self.visited.len() - k,
        {
            if crate::system::path_eq(&self.visited[k], dir) {
                proof {
                    assert(self.visited.deep_view()[k as int] == dir@);
                }
                return true;
            }
            k = k + 1;
        }
        proof {
            if self.visited.deep_view().contains(dir@) {
                let w = choose|w: int|
                    0 <= w < self.visited.deep_view().len() && self.visited.deep_view()[w] == dir@;
            }
        }
        false
    }

    /// Folds one directory's bulk-query report into the scan: every entry
    /// joins the collected stream under its full path, and subdirectories
    /// join the next frontier. A failed query simply reports no entries.
    pub fn ingest(&mut self, dir: String, entries: Vec<RawEntry>)
        ensures
            final(self).visited == old(self).visited,
            final(self).results@.len() == old(self).results@.len() + entries@.len(),
            forall|j: int|
                0 <= j < old(self).results@.len() ==> final(self).results@[j] == old(
                    self,
                ).results@[j],
            forall|j: int|
                0 <= j < entries@.len() ==> {
                    let e = #[trigger] final(self).results@[old(self).results@.len() + j];
                    &&& e.path@ == spec_entry_path(dir@, entries@[j].name@)
                    &&& e.size == entries@[j].size
                    &&& e.is_file == entries@[j].is_file
                },
            final(self).frontier@.len() == old(self).frontier@.len() + spec_subdir_count(
                entries@,
            ),
            forall|j: int|
                0 <= j < old(self).frontier@.len() ==> final(self).frontier@[j] == old(
                    self,
                ).frontier@[j],
    {
        let mut entries = entries;
        let ghost es = entries@;
        let mut j: usize = 0;
        proof {
            assert(es.take(0) =~= Seq::<RawEntry>::empty());
        }
        while j < entries.len()
            invariant
                j <= entries@.len(),
                entries@ == es,
                self.visited == old(self).visited,
                self.results@.len() == old(self).results@.len() + j,
                forall|x: int|
                    0 <= x < old(self).results@.len() ==> self.results@[x] == old(
                        self,
                    ).results@[x],
                forall|x: int|
                    0 <= x < j ==> {
                        let e = #[trigger] self.results@[old(self).results@.len() + x];
                        &&& e.path@ == spec_entry_path(dir@, es[x].name@)
                        &&& e.size == es[x].size
                        &&& e.is_file == es[x].is_file
                    },
                self.frontier@.len() >= old(self).frontier@.len(),
                self.frontier@.len() == old(self).frontier@.len() + spec_subdir_count(
                    es.take(j as int),
                ),
                forall|x: int|
                    0 <= x < old(self).frontier@.len() ==> self.frontier@[x] == old(
                        self,
                    ).frontier@[x],
            decreases entries.len() - j,
        {
            let ghost fpre = self.frontier@;
            let path = join_path(&dir, &entries[j].name);
            let is_file = entries[j].is_file;
            let size = entries[j].size;
            if !is_file {
                self.frontier.push(path.clone());
            }
            self.results.push(ScanEntry { path, size, is_file });
            proof {
                lemma_subdir_count_snoc(es, j as int);
                assert forall|x: int| 0 <= x < old(self).frontier@.len() implies self.frontier@[x]
                    == old(self).frontier@[x] by {
                    assert(self.frontier@[x] == fpre[x]);
                }
            }
            j = j + 1;
        }
        proof {
            assert(es.take(es.len() as int) =~= es);
        }
    }

    /// Hands the collected entry stream over for tree construction.
    pub fn into_results(self) -> (r: Vec<ScanEntry>)
        ensures
            r == self.results,
    {
        self.results
    }
}

/// How many of the reported entries are subdirectories.
pub open spec fn spec_subdir_count(es: Seq<RawEntry>) -> int
    decreases es.len(),
{
    if es.len() == 0 {
        0
    } else {
        (if es[0].is_file {
            0int
        } else {
            1int
        }) + spec_subdir_count(es.skip(1))
    }
}

proof fn lemma_subdir_count_snoc(es: Seq<RawEntry>, j: int)
    requires
        0 <= j < es.len(),
    ensures
        spec_subdir_count(es.take(j + 1)) == spec_subdir_count(es.take(j)) + (if es[j].is_file {
            0int
        } else {
            1int
        }),
    decreases j,
{
    let b = es.take(j + 1);
    if j == 0 {
        assert(b[0] == es[0]);
        assert(b.skip(1) =~= Seq::<RawEntry>::empty());
        assert(es.take(0) =~= Seq::<RawEntry>::empty());
    } else {
        assert(b[0] == es[0]);
        assert(es.take(j)[0] == es[0]);
        assert(b.skip(1) =~= es.skip(1).take(j));
        assert(es.take(j).skip(1) =~= es.skip(1).take(j - 1));
        assert(es.skip(1)[j - 1] == es[j]);
        lemma_subdir_count_snoc(es.skip(1), j - 1);
    }
}

/// Whether the path names a bundle directory treated as an opaque leaf.
fn ends_with_framework(s: &String) -> (r: bool)
    ensures
        r == spec_ends_with(s@, ".framework"@),
{
    proof {
        reveal_strlit(".framework");
    }
    let v = crate::text::str_chars(s.as_str());
    let suf = crate::text::str_chars(".framework");
    if v.len() < suf.len() {
        return false;
    }
    let off = v.len() - suf.len();
    proof {
        assert(v.len() == v@.len());
    }
    let mut k: usize = 0;
    while k < suf.len()
        invariant
            suf@.len() <= v@.len(),
            v@.len() <= usize::MAX,
            off == v@.len() - suf@.len(),
            k <= suf@.len(),
            v@ == s@,
            suf@ == ".framework"@,
            forall|x: int| 0 <= x < k ==> v@[off + x] == suf@[x],
        decreases suf.len() - k,
    {
        if v[off + k] != suf[k] {
            proof {
                assert(s@.skip(off as int)[k as int] == v@[off + k]);
            }
            return false;
        }
        k = k + 1;
    }
    proof {
        assert(s@.skip(off as int) =~= suf@);
    }
    true
}

} // verus!

verus! {

// The attribute bits of a bulk directory query whose payloads the scan
// reads: the entry name, the object type, and the file's total size.
pub const ATTR_CMN_NAME: u32 = 1;

pub const ATTR_CMN_OBJTYPE: u32 = 8;

pub const ATTR_FILE_TOTALSIZE: u32 = 512;

/// One decoded record of a bulk attribute buffer: the raw name bytes, the
/// reported size, and whether the object is a file (a regular file or a
/// symbolic link).
pub struct BulkEntry {
    pub name: Vec<u8>,
    pub size: u64,
    pub is_file: bool,
}

/// The mathematical shape of one decoded record.
pub struct BulkView {
    pub name: Seq<u8>,
    pub size: int,
    pub is_file: bool,
}

/// A little-endian 32-bit word at `i`.
pub open spec fn spec_le32(b: Seq<u8>, i: int) -> int {
    b[i] + 256 * b[i + 1] + 65536 * b[i + 2] + 16777216 * b[i + 3]
}

/// The bytes from `i` up to the first NUL (or the buffer's end).
pub open spec fn spec_cstr(b: Seq<u8>, i: int) -> Seq<u8>
    decreases b.len() - i,
{
    if i < 0 || i >= b.len() || b[i] == 0 {
        Seq::empty()
    } else {
        seq![b[i]] + spec_cstr(b, i + 1)
    }
}

/// The records of a bulk attribute buffer, reading `n` entries from byte
/// offset `o` on: each entry opens with its own length, then the
/// attribute-set words, then the fields announced by the returned
/// attribute bits in a fixed order. Decoding stops quietly at a corrupt
/// length or a name reference pointing outside the buffer.
pub open spec fn spec_bulk(b: Seq<u8>, o: int, n: nat) -> Seq<BulkView>
    decreases n,
{
    if n == 0 || o < 0 || o + 4 > b.len() {
        Seq::empty()
    } else {
        let length = spec_le32(b, o);
        if length == 0 || o + length > b.len() || length < 24 {
            Seq::empty()
        } else {
            let common = spec_le32(b, o + 4);
            let fileattr = spec_le32(b, o + 16);
            let f0 = o + 24;
            let has_name = common % 2 == 1;
            let name_ref_ok = !has_name || f0 + 8 <= b.len();
            let name_end = if has_name {
                f0 + 8
            } else {
                f0
            };
            let name = if has_name {
                let off = spec_le32(b, f0);
                spec_cstr(b, f0 + off)
            } else {
                Seq::empty()
            };
            let name_ok = !has_name || {
                let off = spec_le32(b, f0);
                o <= f0 + off < b.len()
            };
            let has_type = (common / 8) % 2 == 1;
            let type_end = if has_type {
                name_end + 4
            } else {
                name_end
            };
            let objtype = if has_type && name_end + 4 <= b.len() {
                spec_le32(b, name_end)
            } else {
                0
            };
            let has_size = (fileattr / 512) % 2 == 1;
            let size = if has_size && type_end + 4 <= b.len() {
                spec_le32(b, type_end)
            } else {
                0
            };
            let reads_ok = (!has_type || name_end + 4 <= b.len()) && (!has_size || type_end + 4
                <= b.len());
            if !name_ref_ok || !name_ok || !reads_ok {
                Seq::empty()
            } else {
                seq![
                    BulkView {
                        name,
                        size,
                        is_file: has_type && (objtype == 1 || objtype == 5),
                    },
                ] + spec_bulk(b, o + length, (n - 1) as nat)
            }
        }
    }
}

/// Reads a little-endian 32-bit word, per `spec_le32`.
fn read_le32(buf: &Vec<u8>, i: usize) -> (r: u32)
    requires
        i + 4 <= buf@.len(),
    ensures
        r as int == spec_le32(buf@, i as int),
{
    proof {
        assert(buf.len() == buf@.len());
    }
    let b0 = buf[i] as u32;
    let b1 = buf[i + 1] as u32;
    let b2 = buf[i + 2] as u32;
    let b3 = buf[i + 3] as u32;
    b0 + 256 * b1 + 65536 * b2 + 16777216 * b3
}

/// Copies the NUL-terminated name starting at `i`, per `spec_cstr`.
fn read_cstr(buf: &Vec<u8>, i: usize) -> (r: Vec<u8>)
    requires
        i <= buf@.len(),
    ensures
        r@ == spec_cstr(buf@, i as int),
{
    let mut out: Vec<u8> = Vec::new();
    let mut j = i;
    while j < buf.len() && buf[j] != 0
        invariant
            i <= j <= buf@.len(),
            spec_cstr(buf@, i as int) == out@ + spec_cstr(buf@, j as int),
        decreases buf@.len() - j,
    {
        let ghost opre = out@;
        out.push(buf[j]);
        proof {
            assert(out@ =~= opre.push(buf@[j as int]));
            assert(opre.push(buf@[j as int]) + spec_cstr(buf@, j + 1) =~= opre + (seq![
                buf@[j as int],
            ] + spec_cstr(buf@, j + 1)));
        }
        j = j + 1;
    }
    proof {
        assert(spec_cstr(buf@, j as int) == Seq::<u8>::empty());
        assert(out@ + Seq::<u8>::empty() =~= out@);
    }
    out
}

/// Decodes the records of one bulk attribute buffer, per `spec_bulk`: the
/// pure half of a bulk directory query, taking the raw buffer and the
/// entry count the query reported.
pub fn parse_bulk_buffer(buf: &Vec<u8>, count: usize) -> (r: Vec<BulkEntry>)
    requires
        buf@.len() + 16 <= usize::MAX,
    ensures
        r@.len() == spec_bulk(buf@, 0, count as nat).len(),
        forall|j: int|
            0 <= j < r@.len() ==> {
                let v = spec_bulk(buf@, 0, count as nat)[j];
                &&& (#[trigger] r@[j]).name@ == v.name
                &&& r@[j].size as int == v.size
                &&& r@[j].is_file == v.is_file
            },
{
    let mut out: Vec<BulkEntry> = Vec::new();
    let mut o: usize = 0;
    let mut k: usize = 0;
    let ghost full = spec_bulk(buf@, 0, count as nat);
    while k < count
        invariant
            buf@.len() + 16 <= usize::MAX,
            k <= count,
            o <= buf@.len(),
            full == spec_bulk(buf@, 0, count as nat),
            out@.len() + spec_bulk(buf@, o as int, (count - k) as nat).len() == full.len(),
            forall|j: int|
                0 <= j < out@.len() ==> {
                    let v = full[j];
                    &&& (#[trigger] out@[j]).name@ == v.name
                    &&& out@[j].size as int == v.size
                    &&& out@[j].is_file == v.is_file
                },
            forall|j: int|
                out@.len() <= j < full.len() ==> full[j] == spec_bulk(
                    buf@,
                    o as int,
                    (count - k) as nat,
                )[j - out@.len()],
        decreases count - k,
    {
        let ghost rest = spec_bulk(buf@, o as int, (count - k) as nat);
        if o + 4 > buf.len() {
            proof {
                assert(rest == Seq::<BulkView>::empty());
            }
            return out;
        }
        let length32 = read_le32(buf, o);
        let length = length32 as usize;
        if length == 0 || length < 24 || length > buf.len() - o {
            proof {
                assert(rest == Seq::<BulkView>::empty());
            }
            return out;
        }
        let common = read_le32(buf, o + 4);
        let fileattr = read_le32(buf, o + 16);
        let f0 = o + 24;
        let has_name = common % 2 == 1;
        let name_end = if has_name {
            f0 + 8
        } else {
            f0
        };
        let mut name: Vec<u8> = Vec::new();
        if has_name {
            if f0 + 8 > buf.len() {
                proof {
                    assert(rest == Seq::<BulkView>::empty());
                }
                return out;
            }
            let off = read_le32(buf, f0) as usize;
            if off > buf.len() - f0 - 1 {
                proof {
                    assert(rest == Seq::<BulkView>::empty());
                }
                return out;
            }
            name = read_cstr(buf, f0 + off);
        }
        let has_type = (common / 8) % 2 == 1;
        let type_end = if has_type {
            name_end + 4
        } else {
            name_end
        };
        let mut objtype: u32 = 0;
        if has_type {
            if name_end + 4 > buf.len() {
                proof {
                    assert(rest == Seq::<BulkView>::empty());
                }
                return out;
            }
            objtype = read_le32(buf, name_end);
        }
        let has_size = (fileattr / 512) % 2 == 1;
        let mut size: u32 = 0;
        if has_size {
            if type_end + 4 > buf.len() {
                proof {
                    assert(rest == Seq::<BulkView>::empty());
                }
                return out;
            }
            size = read_le32(buf, type_end);
        }
        let is_file = has_type && (objtype == 1 || objtype == 5);
        proof {
            assert(rest[0] == (BulkView {
                name: name@,
                size: size as int,
                is_file,
            }));
            assert(rest.skip(1) =~= spec_bulk(buf@, o as int + length as int, (count - k
                - 1) as nat));
        }
        out.push(BulkEntry { name, size: size as u64, is_file });
        o = o + length;
        k = k + 1;
    }
    proof {
        assert(spec_bulk(buf@, o as int, 0) == Seq::<BulkView>::empty());
    }
    out
}

} // verus!
