//! SHA-256 digests of watched files and extra strings, in lowercase hex, and
//! the short entry names derived from glob patterns.
use vstd::prelude::*;
use sha2::Digest;
use crate::order::{byte_lt, bytes_before, lex_lt, text_before, text_lt};
use crate::paths::{components_of, copy_bytes, parts_before, path_components, path_lt};
use crate::sort::{Ordered, sort_ordered, sort_stable};

verus! {

broadcast use vstd::seq_lib::group_seq_properties;

/// The SHA-256 digest of `data`, as `sha2` computes it.
pub uninterp spec fn sha256(data: Seq<u8>) -> Seq<u8>;

/// Calls `sha2::Sha256::digest`: its result is the SHA-256 digest of `data`,
/// whose output type holds 32 bytes.
#[verifier::external_body]
fn sha256_digest(data: &[u8]) -> (r: Vec<u8>)
    ensures
        r@ == sha256(data@),
        r@.len() == 32,
{
    sha2::Sha256::digest(data).to_vec()
}

/// The lowercase hexadecimal digit of a value below 16.
pub open spec fn hex_digit(n: int) -> char {
    if n < 10 {
        (48 + n) as char
    } else {
        (87 + n) as char
    }
}

/// Two lowercase hexadecimal digits per byte, the high half first.
pub open spec fn hex_lower(bytes: Seq<u8>) -> Seq<char>
    decreases bytes.len(),
{
    if bytes.len() == 0 {
        Seq::empty()
    } else {
        hex_lower(bytes.drop_last()) + seq![
            hex_digit(bytes.last() as int / 16),
            hex_digit(bytes.last() as int % 16),
        ]
    }
}

/// Calls `hex::encode`, which writes each byte as two lowercase hexadecimal
/// digits, the high half first.
#[verifier::external_body]
fn hex_encode(data: &[u8]) -> (r: String)
    ensures
        r@ == hex_lower(data@),
{
    hex::encode(data)
}

/// Every character is a lowercase hexadecimal digit.
pub open spec fn is_hex_text(s: Seq<char>) -> bool {
    forall|j: int| 0 <= j < s.len() ==> ('0' <= #[trigger] s[j] <= '9') || ('a' <= s[j] <= 'f')
}

pub proof fn lemma_hex_text(bytes: Seq<u8>)
    ensures
        is_hex_text(hex_lower(bytes)),
    decreases bytes.len(),
{
    if bytes.len() > 0 {
        lemma_hex_text(bytes.drop_last());
        let b = bytes.last() as int;
        assert(0 <= b / 16 < 16 && 0 <= b % 16 < 16);
        let h = hex_lower(bytes);
        let front = hex_lower(bytes.drop_last());
        assert forall|j: int| 0 <= j < h.len() implies ('0' <= #[trigger] h[j] <= '9') || ('a' <= h[j] <= 'f') by {
            if j < front.len() {
                assert(h[j] == front[j]);
            }
        }
    }
}

pub proof fn lemma_hex_len(bytes: Seq<u8>)
    ensures
        hex_lower(bytes).len() == 2 * bytes.len(),
    decreases bytes.len(),
{
    if bytes.len() > 0 {
        lemma_hex_len(bytes.drop_last());
    }
}

/// A watched file: the text of its path and what it holds.
pub struct FileInput {
    pub path: String,
    pub contents: Vec<u8>,
}

impl View for FileInput {
    type V = (Seq<char>, Seq<u8>);

    open spec fn view(&self) -> (Seq<char>, Seq<u8>) {
        (self.path@, self.contents@)
    }
}

pub open spec fn files_view(files: Seq<FileInput>) -> Seq<(Seq<char>, Seq<u8>)> {
    files.map_values(|f: FileInput| f@)
}

pub proof fn lemma_file_lt_facts(a: (Seq<char>, Seq<u8>), b: (Seq<char>, Seq<u8>), c: (Seq<char>, Seq<u8>))
    ensures
        !file_lt(a, a),
        file_lt(a, b) && file_lt(b, c) ==> file_lt(a, c),
        a != b ==> file_lt(a, b) || file_lt(b, a),
{
    let (pa, pb, pc) = (path_components(a.0), path_components(b.0), path_components(c.0));
    crate::paths::lemma_path_lt_facts(pa, pb, pc);
    crate::paths::lemma_path_lt_facts(pa, pa, pa);
    crate::paths::lemma_path_lt_facts(pb, pa, pc);
    crate::paths::lemma_path_lt_facts(pa, pc, pb);
    crate::order::lemma_lex_irreflexive(vstd::utf8::encode_utf8(a.0), byte_lt());
    crate::order::lemma_lex_irreflexive(a.1, byte_lt());
    if text_lt(a.0, b.0) && text_lt(b.0, c.0) {
        crate::order::lemma_text_lt_transitive(a.0, b.0, c.0);
    }
    if lex_lt(a.1, b.1, byte_lt()) && lex_lt(b.1, c.1, byte_lt()) {
        crate::order::lemma_lex_transitive(a.1, b.1, c.1, byte_lt());
    }
    if a != b && pa == pb {
        if a.0 != b.0 {
            if !text_lt(a.0, b.0) && !text_lt(b.0, a.0) {
                crate::order::lemma_text_lt_total(a.0, b.0);
            }
        } else {
            assert(a.1 != b.1);
            crate::order::lemma_lex_total(a.1, b.1, byte_lt());
        }
    }
}

impl Ordered for FileInput {
    open spec fn precedes(a: (Seq<char>, Seq<u8>), b: (Seq<char>, Seq<u8>)) -> bool {
        file_lt(a, b)
    }

    proof fn lemma_precedes_transitive(a: (Seq<char>, Seq<u8>), b: (Seq<char>, Seq<u8>), c: (Seq<char>, Seq<u8>)) {
        lemma_file_lt_facts(a, b, c);
    }

    proof fn lemma_precedes_asymmetric(a: (Seq<char>, Seq<u8>), b: (Seq<char>, Seq<u8>)) {
        lemma_file_lt_facts(a, b, a);
    }

    proof fn lemma_not_precedes_transitive(a: (Seq<char>, Seq<u8>), b: (Seq<char>, Seq<u8>), c: (Seq<char>, Seq<u8>)) {
        lemma_file_lt_facts(c, a, b);
        lemma_file_lt_facts(a, b, c);
        lemma_file_lt_facts(b, a, c);
    }

    fn goes_before(&self, other: &Self) -> (r: bool) {
        let pa = components_of(self.path.as_str());
        let pb = components_of(other.path.as_str());
        if parts_before(pa.as_slice(), pb.as_slice()) {
            return true;
        }
        if parts_before(pb.as_slice(), pa.as_slice()) {
            return false;
        }
        proof {
            let (va, vb) = (path_components(self.path@), path_components(other.path@));
            crate::paths::lemma_path_lt_facts(va, vb, va);
        }
        if text_before(self.path.as_str(), other.path.as_str()) {
            return true;
        }
        if text_before(other.path.as_str(), self.path.as_str()) {
            return false;
        }
        proof {
            crate::order::lemma_text_lt_total(self.path@, other.path@);
        }
        bytes_before(self.contents.as_slice(), other.contents.as_slice())
    }

    fn duplicate(&self) -> (r: Self) {
        FileInput { path: self.path.clone(), contents: copy_bytes(self.contents.as_slice()) }
    }
}

pub open spec fn strings_view(strs: Seq<String>) -> Seq<Seq<char>> {
    strs.map_values(|s: String| s@)
}

/// What a file adds to the combined hash: its path, a zero byte, its
/// contents and another zero byte.
pub open spec fn file_block(f: (Seq<char>, Seq<u8>)) -> Seq<u8> {
    vstd::utf8::encode_utf8(f.0) + seq![0u8] + f.1 + seq![0u8]
}

pub open spec fn files_bytes(files: Seq<(Seq<char>, Seq<u8>)>) -> Seq<u8>
    decreases files.len(),
{
    if files.len() == 0 {
        Seq::empty()
    } else {
        files_bytes(files.drop_last()) + file_block(files.last())
    }
}

/// The UTF-8 bytes of each string, each followed by `sep`.
pub open spec fn strings_bytes(strs: Seq<Seq<char>>, sep: u8) -> Seq<u8>
    decreases strs.len(),
{
    if strs.len() == 0 {
        Seq::empty()
    } else {
        strings_bytes(strs.drop_last(), sep) + vstd::utf8::encode_utf8(strs.last()) + seq![sep]
    }
}

/// The bytes hashed for files taken in the order given, then the extra
/// strings.
pub open spec fn ordered_input(files: Seq<(Seq<char>, Seq<u8>)>, extras: Seq<Seq<char>>) -> Seq<u8> {
    files_bytes(files) + strings_bytes(extras, 0u8)
}

/// The order in which files are hashed: by the components of their paths,
/// as `Path` orders them; files whose paths have the same components by the
/// text of the path, then by their contents.
pub open spec fn file_lt(a: (Seq<char>, Seq<u8>), b: (Seq<char>, Seq<u8>)) -> bool {
    let pa = path_components(a.0);
    let pb = path_components(b.0);
    path_lt(pa, pb) || (pa == pb && (text_lt(a.0, b.0) || (a.0 == b.0 && lex_lt(a.1, b.1, byte_lt()))))
}

/// The files sorted in the order in which they are hashed.
pub open spec fn hash_order(files: Seq<(Seq<char>, Seq<u8>)>) -> Seq<(Seq<char>, Seq<u8>)> {
    sort_ordered::<FileInput>(files)
}

/// The bytes that the combined hash digests: the files in sorted order,
/// then the extra strings.
pub open spec fn hash_input(files: Seq<(Seq<char>, Seq<u8>)>, extras: Seq<Seq<char>>) -> Seq<u8> {
    ordered_input(hash_order(files), extras)
}

/// The combined hash of files and extra strings.
pub open spec fn combined_hash(files: Seq<(Seq<char>, Seq<u8>)>, extras: Seq<Seq<char>>) -> Seq<char> {
    hex_lower(sha256(hash_input(files, extras)))
}

fn append_bytes(buf: &mut Vec<u8>, more: &[u8])
    ensures
        final(buf)@ == old(buf)@ + more@,
{
    let mut i: usize = 0;
    while i < more.len()
        invariant
            i <= more.len(),
            buf@ == old(buf)@ + more@.take(i as int),
        decreases more.len() - i,
    {
        buf.push(more[i]);
        assert(more@.take(i + 1) =~= more@.take(i as int).push(more@[i as int]));
        i = i + 1;
    }
    assert(more@.take(more.len() as int) =~= more@);
}

fn push_strings(buf: &mut Vec<u8>, strs: &[String], sep: u8)
    ensures
        final(buf)@ == old(buf)@ + strings_bytes(strings_view(strs@), sep),
{
    let ghost ss = strings_view(strs@);
    let mut i: usize = 0;
    assert(ss.take(0) =~= Seq::<Seq<char>>::empty());
    while i < strs.len()
        invariant
            i <= strs.len(),
            ss == strings_view(strs@),
            buf@ == old(buf)@ + strings_bytes(ss.take(i as int), sep),
        decreases strs.len() - i,
    {
        append_bytes(buf, strs[i].as_str().as_bytes());
        buf.push(sep);
        assert(ss.take(i + 1).drop_last() =~= ss.take(i as int));
        i = i + 1;
    }
    assert(ss.take(strs.len() as int) =~= ss);
}

fn push_files(buf: &mut Vec<u8>, files: &[FileInput])
    ensures
        final(buf)@ == old(buf)@ + files_bytes(files_view(files@)),
{
    let ghost fs = files_view(files@);
    let mut i: usize = 0;
    assert(fs.take(0) =~= Seq::<(Seq<char>, Seq<u8>)>::empty());
    while i < files.len()
        invariant
            i <= files.len(),
            fs == files_view(files@),
            buf@ == old(buf)@ + files_bytes(fs.take(i as int)),
        decreases files.len() - i,
    {
        append_bytes(buf, files[i].path.as_str().as_bytes());
        buf.push(0u8);
        append_bytes(buf, files[i].contents.as_slice());
        buf.push(0u8);
        assert(fs.take(i + 1).drop_last() =~= fs.take(i as int));
        i = i + 1;
    }
    assert(fs.take(files.len() as int) =~= fs);
}

/// The combined SHA-256 hash, in lowercase hex, of the files (each path and
/// its contents, the files sorted by path) followed by the extra strings.
pub fn compute_hash(files: &[FileInput], extra_strings: &[String]) -> (r: String)
    ensures
        r@ == combined_hash(files_view(files@), strings_view(extra_strings@)),
        r@.len() == 64,
        is_hex_text(r@),
{
    let sorted = sort_stable(files);
    assert(files_view(sorted@) == hash_order(files_view(files@)));
    let mut buf: Vec<u8> = Vec::new();
    push_files(&mut buf, sorted.as_slice());
    push_strings(&mut buf, extra_strings, 0u8);
    assert(buf@ =~= hash_input(files_view(files@), strings_view(extra_strings@)));
    let digest = sha256_digest(buf.as_slice());
    proof {
        lemma_hex_len(digest@);
        lemma_hex_text(digest@);
    }
    hex_encode(digest.as_slice())
}


/// The lowercase hex SHA-256 digest of a file's contents.
pub open spec fn file_digest(f: (Seq<char>, Seq<u8>)) -> Seq<char> {
    hex_lower(sha256(f.1))
}

/// Some file has the path `p`.
pub open spec fn has_path(files: Seq<(Seq<char>, Seq<u8>)>, p: Seq<char>) -> bool {
    exists|i: int| 0 <= i < files.len() && #[trigger] files[i].0 == p
}

/// The digest of the last file whose path is `p`.
pub open spec fn last_digest(files: Seq<(Seq<char>, Seq<u8>)>, p: Seq<char>) -> Seq<char>
    decreases files.len(),
{
    if files.len() == 0 {
        Seq::empty()
    } else if files.last().0 == p {
        file_digest(files.last())
    } else {
        last_digest(files.drop_last(), p)
    }
}

pub open spec fn listing_view(l: Seq<(String, String)>) -> Seq<(Seq<char>, Seq<char>)> {
    l.map_values(|e: (String, String)| (e.0@, e.1@))
}

/// Paths in strictly increasing order.
pub open spec fn strictly_sorted(l: Seq<(Seq<char>, Seq<char>)>) -> bool {
    forall|i: int, j: int| 0 <= i < j < l.len() ==> text_lt(#[trigger] l[i].0, #[trigger] l[j].0)
}

pub open spec fn lists_path(l: Seq<(Seq<char>, Seq<char>)>, p: Seq<char>) -> bool {
    exists|i: int| 0 <= i < l.len() && #[trigger] l[i].0 == p
}

/// `l` lists, sorted by path, each path of `files` once with the digest of
/// the last file of that path: what a map from path to digest holds after
/// the files are entered in order.
pub open spec fn is_digest_listing(l: Seq<(Seq<char>, Seq<char>)>, files: Seq<(Seq<char>, Seq<u8>)>) -> bool {
    &&& strictly_sorted(l)
    &&& forall|p: Seq<char>| has_path(files, p) <==> lists_path(l, p)
    &&& forall|i: int| 0 <= i < l.len() ==> (#[trigger] l[i]).1 == last_digest(files, l[i].0)
}

fn put_digest(listing: &mut Vec<(String, String)>, path: String, digest: String)
    requires
        strictly_sorted(listing_view(old(listing)@)),
    ensures
        strictly_sorted(listing_view(final(listing)@)),
        forall|p: Seq<char>|
            lists_path(listing_view(final(listing)@), p) <==> (p == path@ || lists_path(
                listing_view(old(listing)@),
                p,
            )),
        forall|i: int|
            0 <= i < final(listing)@.len() ==> if (#[trigger] listing_view(final(listing)@)[i]).0 == path@ {
                listing_view(final(listing)@)[i].1 == digest@
            } else {
                exists|j: int|
                    0 <= j < old(listing)@.len() && #[trigger] listing_view(old(listing)@)[j]
                        == listing_view(final(listing)@)[i]
            },
{
    let ghost before = listing_view(listing@);
    let mut j: usize = 0;
    while j < listing.len() && text_before(listing[j].0.as_str(), path.as_str())
        invariant
            j <= listing.len(),
            before == listing_view(listing@),
            forall|k: int| 0 <= k < j ==> text_lt(#[trigger] before[k].0, path@),
        decreases listing.len() - j,
    {
        j = j + 1;
    }
    if j < listing.len() && listing[j].0 == path {
        listing.set(j, (path, digest));
        let ghost after = listing_view(listing@);
        assert(after =~= before.update(j as int, (path@, digest@)));
        assert forall|p: Seq<char>| lists_path(after, p) <==> (p == path@ || lists_path(before, p)) by {
            if lists_path(before, p) {
                let k = choose|k: int| 0 <= k < before.len() && #[trigger] before[k].0 == p;
                assert(after[k].0 == p);
            }
            if p == path@ {
                assert(after[j as int].0 == p);
            }
            if lists_path(after, p) {
                let k = choose|k: int| 0 <= k < after.len() && #[trigger] after[k].0 == p;
                assert(before[k].0 == p);
            }
        }
        assert(before[j as int].0 == path@);
        assert forall|a: int, b: int| 0 <= a < b < after.len() implies text_lt(#[trigger] after[a].0, #[trigger] after[b].0) by {
            assert(after[a].0 == before[a].0 && after[b].0 == before[b].0);
        }
        assert forall|i: int| 0 <= i < after.len() && (#[trigger] after[i]).0 != path@ implies exists|k: int|
            0 <= k < before.len() && #[trigger] before[k] == after[i] by {
            assert(before[i] == after[i]);
        }
        assert forall|i: int| 0 <= i < after.len() && (#[trigger] after[i]).0 == path@ implies after[i].1 == digest@ by {
            if i != j {
                crate::order::lemma_lex_irreflexive(vstd::utf8::encode_utf8(path@), crate::order::byte_lt());
                if i < j {
                    assert(text_lt(before[i].0, before[j as int].0));
                } else {
                    assert(text_lt(before[j as int].0, before[i].0));
                }
            }
        }
    } else {
        proof {
            if j < listing.len() {
                assert(!text_lt(before[j as int].0, path@));
                if !text_lt(path@, before[j as int].0) {
                    crate::order::lemma_text_lt_total(path@, before[j as int].0);
                }
                assert(text_lt(path@, before[j as int].0));
            }
        }
        listing.insert(j, (path, digest));
        let ghost after = listing_view(listing@);
        assert(after =~= before.insert(j as int, (path@, digest@)));
        assert forall|a: int, b: int| 0 <= a < b < after.len() implies text_lt(#[trigger] after[a].0, #[trigger] after[b].0) by {
            if a < j && b == j {
            } else if a < j && b > j {
                assert(after[b] == before[b - 1]);
                if b - 1 > a {
                    assert(text_lt(before[a].0, before[b - 1].0));
                }
            } else if a == j && b > j {
                assert(after[b] == before[b - 1]);
                if b - 1 > j {
                    assert(text_lt(before[j as int].0, before[b - 1].0));
                    crate::order::lemma_text_lt_transitive(path@, before[j as int].0, before[b - 1].0);
                }
            } else if a > j {
                assert(after[a] == before[a - 1] && after[b] == before[b - 1]);
                assert(text_lt(before[a - 1].0, before[b - 1].0));
            } else {
                assert(after[a] == before[a] && after[b] == before[b]);
                assert(text_lt(before[a].0, before[b].0));
            }
        }
        assert forall|p: Seq<char>| lists_path(after, p) <==> (p == path@ || lists_path(before, p)) by {
            if lists_path(before, p) {
                let k = choose|k: int| 0 <= k < before.len() && #[trigger] before[k].0 == p;
                if k < j {
                    assert(after[k].0 == p);
                } else {
                    assert(after[k + 1].0 == p);
                }
            }
            if p == path@ {
                assert(after[j as int].0 == p);
            }
            if lists_path(after, p) {
                let k = choose|k: int| 0 <= k < after.len() && #[trigger] after[k].0 == p;
                if k < j {
                    assert(before[k].0 == p);
                } else if k > j {
                    assert(before[k - 1].0 == p);
                }
            }
        }
        assert forall|i: int| 0 <= i < after.len() && (#[trigger] after[i]).0 != path@ implies exists|k: int|
            0 <= k < before.len() && #[trigger] before[k] == after[i] by {
            if i < j {
                assert(before[i] == after[i]);
            } else {
                assert(before[i - 1] == after[i]);
            }
        }
        assert forall|i: int| 0 <= i < after.len() && (#[trigger] after[i]).0 == path@ implies after[i].1 == digest@ by {
            if i != j {
                crate::order::lemma_lex_irreflexive(vstd::utf8::encode_utf8(path@), crate::order::byte_lt());
                if i < j {
                    assert(text_lt(after[i].0, after[j as int].0));
                } else {
                    assert(text_lt(after[j as int].0, after[i].0));
                }
            }
        }
    }
}

/// The combined hash of `compute_hash`, together with the digest of each
/// file's contents, listed by path in increasing order; where two files
/// share a path, the later one's digest is listed.
pub fn compute_hash_verbose(files: &[FileInput], extra_strings: &[String]) -> (r: (
    String,
    Vec<(String, String)>,
))
    ensures
        r.0@ == combined_hash(files_view(files@), strings_view(extra_strings@)),
        r.0@.len() == 64,
        is_hex_text(r.0@),
        is_digest_listing(listing_view(r.1@), files_view(files@)),
{
    let ghost fs = files_view(files@);
    let mut listing: Vec<(String, String)> = Vec::new();
    let mut i: usize = 0;
    assert(fs.take(0) =~= Seq::<(Seq<char>, Seq<u8>)>::empty());
    while i < files.len()
        invariant
            i <= files.len(),
            fs == files_view(files@),
            is_digest_listing(listing_view(listing@), fs.take(i as int)),
        decreases files.len() - i,
    {
        let ghost before = listing_view(listing@);
        let digest = sha256_digest(files[i].contents.as_slice());
        let text = hex_encode(digest.as_slice());
        let path = files[i].path.clone();
        put_digest(&mut listing, path, text);
        let ghost after = listing_view(listing@);
        let ghost done = fs.take(i + 1);
        assert(done.drop_last() =~= fs.take(i as int));
        assert(done.last() == fs[i as int]);
        assert forall|p: Seq<char>| has_path(done, p) <==> (p == fs[i as int].0 || has_path(fs.take(i as int), p)) by {
            if has_path(done, p) {
                let k = choose|k: int| 0 <= k < done.len() && #[trigger] done[k].0 == p;
                if k < i {
                    assert(fs.take(i as int)[k].0 == p);
                }
            }
            if has_path(fs.take(i as int), p) {
                let k = choose|k: int| 0 <= k < i && #[trigger] fs.take(i as int)[k].0 == p;
                assert(done[k].0 == p);
            }
            if p == fs[i as int].0 {
                assert(done[i as int].0 == p);
            }
        }
        assert forall|k: int| 0 <= k < after.len() implies (#[trigger] after[k]).1 == last_digest(done, after[k].0) by {
            if after[k].0 != fs[i as int].0 {
                let m = choose|m: int| 0 <= m < before.len() && #[trigger] before[m] == after[k];
                assert(before[m].1 == last_digest(fs.take(i as int), before[m].0));
            }
        }
        i = i + 1;
    }
    assert(fs.take(files.len() as int) =~= fs);
    (compute_hash(files, extra_strings), listing)
}

/// The bytes whose digest names an entry: the patterns in sorted order,
/// then the extra strings, each followed by a newline.
pub open spec fn name_input(patterns: Seq<Seq<char>>, extras: Seq<Seq<char>>) -> Seq<u8> {
    strings_bytes(sort_ordered::<String>(patterns), 10u8) + strings_bytes(extras, 10u8)
}

/// The name derived from patterns and extra strings: the first 12 hex
/// digits of the digest of `name_input`.
pub open spec fn derived_name(patterns: Seq<Seq<char>>, extras: Seq<Seq<char>>) -> Seq<char> {
    hex_lower(sha256(name_input(patterns, extras))).take(12)
}

/// A stable short name for a set of glob patterns and extra strings.
pub fn derive_name(patterns: &[String], extra_strings: &[String]) -> (r: String)
    ensures
        r@ == derived_name(strings_view(patterns@), strings_view(extra_strings@)),
        r@.len() == 12,
        is_hex_text(r@),
{
    let sorted = sort_stable(patterns);
    let mut buf: Vec<u8> = Vec::new();
    push_strings(&mut buf, sorted.as_slice(), 10u8);
    push_strings(&mut buf, extra_strings, 10u8);
    assert(strings_view(sorted@) == sorted@.map_values(|x: String| x@));
    assert(strings_view(patterns@) == patterns@.map_values(|x: String| x@));
    let digest = sha256_digest(buf.as_slice());
    let text = hex_encode(digest.as_slice());
    proof {
        lemma_hex_len(digest@);
        lemma_hex_text(digest@);
    }
    text.as_str().substring_char(0, 12).to_owned()
}


/// Two different texts are always in order one way or the other.
proof fn lemma_text_lt_relates_all()
    ensures
        forall|x: Seq<char>, y: Seq<char>| x != y ==> text_lt(x, y) || text_lt(y, x),
{
    assert forall|x: Seq<char>, y: Seq<char>| x != y implies text_lt(x, y) || text_lt(y, x) by {
        if !text_lt(x, y) && !text_lt(y, x) {
            crate::order::lemma_text_lt_total(x, y);
        }
    }
}

/// The derived name does not depend on the order in which the patterns are
/// given: any rearrangement of them gives the same name.
pub proof fn law_derived_name_ignores_pattern_order(
    patterns: Seq<Seq<char>>,
    rearranged: Seq<Seq<char>>,
    extras: Seq<Seq<char>>,
)
    requires
        patterns.to_multiset() == rearranged.to_multiset(),
    ensures
        derived_name(patterns, extras) == derived_name(rearranged, extras),
{
    crate::sort::lemma_sort_is_ordered::<String>(patterns);
    crate::sort::lemma_sort_is_ordered::<String>(rearranged);
    crate::sort::lemma_sort_to_multiset::<String>(patterns);
    crate::sort::lemma_sort_to_multiset::<String>(rearranged);
    lemma_text_lt_relates_all();
    crate::sort::lemma_ordered_unique::<String>(sort_ordered::<String>(patterns), sort_ordered::<String>(rearranged));
}


/// No string holds the character whose code is `sep`.
pub open spec fn free_of(strs: Seq<Seq<char>>, sep: u8) -> bool {
    forall|i: int, j: int| 0 <= i < strs.len() && 0 <= j < strs[i].len() ==> (#[trigger] strs[i][j]) as u32 != sep as u32
}

proof fn lemma_scalar_bytes(v: u32, sep: u8)
    requires
        vstd::utf8::is_scalar(v),
        sep < 0x80,
        v != sep as u32,
    ensures
        forall|k: int| 0 <= k < vstd::utf8::encode_scalar(v).len() ==> #[trigger] vstd::utf8::encode_scalar(v)[k] != sep,
{
    let e = vstd::utf8::encode_scalar(v);
    if vstd::utf8::has_width_1_encoding(v) {
        assert((v & 0x7F) as u8 != sep) by (bit_vector)
            requires
                v <= 0x7F,
                v != sep as u32,
        ;
    } else {
        let a = (v >> 6) & 0x1F;
        let b = (v >> 12) & 0x0F;
        let c = (v >> 18) & 0x7;
        let d = v & 0x3F;
        let f = (v >> 6) & 0x3F;
        let g = (v >> 12) & 0x3F;
        assert(0xC0 | (a as u8) >= 0x80) by (bit_vector);
        assert(0xE0 | (b as u8) >= 0x80) by (bit_vector);
        assert(0xF0 | (c as u8) >= 0x80) by (bit_vector);
        assert(0x80 | (d as u8) >= 0x80) by (bit_vector);
        assert(0x80 | (f as u8) >= 0x80) by (bit_vector);
        assert(0x80 | (g as u8) >= 0x80) by (bit_vector);
    }
}

/// The UTF-8 bytes of a string without the character `sep` (an ASCII code)
/// do not hold the byte `sep`.
proof fn lemma_encoding_free_of(s: Seq<char>, sep: u8)
    requires
        sep < 0x80,
        forall|j: int| 0 <= j < s.len() ==> (#[trigger] s[j]) as u32 != sep as u32,
    ensures
        forall|k: int| 0 <= k < vstd::utf8::encode_utf8(s).len() ==> #[trigger] vstd::utf8::encode_utf8(s)[k] != sep,
    decreases s.len(),
{
    if s.len() > 0 {
        let rest = s.drop_first();
        assert forall|j: int| 0 <= j < rest.len() implies (#[trigger] rest[j]) as u32 != sep as u32 by {
            assert(rest[j] == s[j + 1]);
        }
        lemma_encoding_free_of(rest, sep);
        vstd::utf8::char_is_scalar(s[0]);
        lemma_scalar_bytes(s[0] as u32, sep);
        let head = vstd::utf8::encode_scalar(s[0] as u32);
        let tail = vstd::utf8::encode_utf8(rest);
        assert(vstd::utf8::encode_utf8(s) == head + tail);
        assert forall|k: int| 0 <= k < (head + tail).len() implies #[trigger] (head + tail)[k] != sep by {
            if k < head.len() {
                assert((head + tail)[k] == head[k]);
            } else {
                assert((head + tail)[k] == tail[k - head.len()]);
            }
        }
    }
}

proof fn lemma_strings_bytes_last(strs: Seq<Seq<char>>, sep: u8)
    requires
        strs.len() > 0,
    ensures
        strings_bytes(strs, sep).len() > 0,
        strings_bytes(strs, sep).last() == sep,
{
}

/// Strings that are free of `sep` (an ASCII code) can be told apart by their
/// bytes, each followed by `sep`.
pub proof fn lemma_strings_bytes_injective(a: Seq<Seq<char>>, b: Seq<Seq<char>>, sep: u8)
    requires
        sep < 0x80,
        free_of(a, sep),
        free_of(b, sep),
        strings_bytes(a, sep) == strings_bytes(b, sep),
    ensures
        a == b,
    decreases a.len() + b.len(),
{
    if a.len() == 0 || b.len() == 0 {
        if a.len() > 0 {
            lemma_strings_bytes_last(a, sep);
        }
        if b.len() > 0 {
            lemma_strings_bytes_last(b, sep);
        }
        assert(a =~= b);
    } else {
        let a1 = a.drop_last();
        let b1 = b.drop_last();
        let pa = strings_bytes(a1, sep);
        let pb = strings_bytes(b1, sep);
        let xa = vstd::utf8::encode_utf8(a.last());
        let xb = vstd::utf8::encode_utf8(b.last());
        let whole = strings_bytes(a, sep);
        assert(whole == pa + xa + seq![sep]);
        assert(whole == pb + xb + seq![sep]);
        assert forall|j: int| 0 <= j < a.last().len() implies (#[trigger] a.last()[j]) as u32 != sep as u32 by {
            assert(a.last()[j] == a[a.len() - 1][j]);
        }
        assert forall|j: int| 0 <= j < b.last().len() implies (#[trigger] b.last()[j]) as u32 != sep as u32 by {
            assert(b.last()[j] == b[b.len() - 1][j]);
        }
        lemma_encoding_free_of(a.last(), sep);
        lemma_encoding_free_of(b.last(), sep);
        if a1.len() > 0 {
            lemma_strings_bytes_last(a1, sep);
        }
        if b1.len() > 0 {
            lemma_strings_bytes_last(b1, sep);
        }
        if xa.len() < xb.len() {
            if pa.len() > 0 {
                let q = pa.len() - 1;
                assert(whole[q] == pa[q]);
                assert(whole[q] == xb[q - pb.len()]);
            } else {
                assert(whole.len() == xa.len() + 1);
            }
        } else if xb.len() < xa.len() {
            if pb.len() > 0 {
                let q = pb.len() - 1;
                assert(whole[q] == pb[q]);
                assert(whole[q] == xa[q - pa.len()]);
            } else {
                assert(whole.len() == xb.len() + 1);
            }
        }
        assert(xa.len() == xb.len());
        assert(pa.len() == pb.len());
        assert(pa =~= whole.take(pa.len() as int));
        assert(pb =~= whole.take(pb.len() as int));
        assert(xa =~= whole.subrange(pa.len() as int, (pa.len() + xa.len()) as int));
        assert(xb =~= whole.subrange(pb.len() as int, (pb.len() + xb.len()) as int));
        vstd::utf8::encode_utf8_decode_utf8(a.last());
        vstd::utf8::encode_utf8_decode_utf8(b.last());
        assert(free_of(a1, sep)) by {
            assert forall|i: int, j: int| 0 <= i < a1.len() && 0 <= j < a1[i].len() implies (#[trigger] a1[i][j]) as u32 != sep as u32 by {
                assert(a1[i] == a[i]);
            }
        }
        assert(free_of(b1, sep)) by {
            assert forall|i: int, j: int| 0 <= i < b1.len() && 0 <= j < b1[i].len() implies (#[trigger] b1[i][j]) as u32 != sep as u32 by {
                assert(b1[i] == b[i]);
            }
        }
        lemma_strings_bytes_injective(a1, b1, sep);
        assert(a =~= a1.push(a.last()));
        assert(b =~= b1.push(b.last()));
    }
}

/// Different extra strings give the combined hash different input, as long
/// as none of them holds a NUL character.
pub proof fn law_extra_strings_change_hash_input(
    files: Seq<(Seq<char>, Seq<u8>)>,
    extras: Seq<Seq<char>>,
    other: Seq<Seq<char>>,
)
    requires
        free_of(extras, 0u8),
        free_of(other, 0u8),
        extras != other,
    ensures
        hash_input(files, extras) != hash_input(files, other),
{
    if hash_input(files, extras) == hash_input(files, other) {
        files_bytes(hash_order(files)).lemma_concat_injective(strings_bytes(extras, 0u8), strings_bytes(other, 0u8));
        lemma_strings_bytes_injective(extras, other, 0u8);
    }
}

/// Different extra strings give the derived name different input, as long
/// as none of them holds a newline.
pub proof fn law_extra_strings_change_name_input(
    patterns: Seq<Seq<char>>,
    extras: Seq<Seq<char>>,
    other: Seq<Seq<char>>,
)
    requires
        free_of(extras, 10u8),
        free_of(other, 10u8),
        extras != other,
    ensures
        name_input(patterns, extras) != name_input(patterns, other),
{
    let head = strings_bytes(sort_ordered::<String>(patterns), 10u8);
    if name_input(patterns, extras) == name_input(patterns, other) {
        head.lemma_concat_injective(strings_bytes(extras, 10u8), strings_bytes(other, 10u8));
        lemma_strings_bytes_injective(extras, other, 10u8);
    }
}


proof fn lemma_files_bytes_concat(a: Seq<(Seq<char>, Seq<u8>)>, b: Seq<(Seq<char>, Seq<u8>)>)
    ensures
        files_bytes(a + b) == files_bytes(a) + files_bytes(b),
    decreases b.len(),
{
    if b.len() == 0 {
        assert(a + b =~= a);
    } else {
        lemma_files_bytes_concat(a, b.drop_last());
        assert((a + b).drop_last() =~= a + b.drop_last());
    }
}

/// The bytes hashed for `files` as the part before the file at `k`, that
/// file's block, and the part after it.
proof fn lemma_ordered_input_around(files: Seq<(Seq<char>, Seq<u8>)>, k: int, extras: Seq<Seq<char>>)
    requires
        0 <= k < files.len(),
    ensures
        ordered_input(files, extras) == files_bytes(files.take(k)) + (file_block(files[k]) + (files_bytes(
            files.skip(k + 1),
        ) + strings_bytes(extras, 0u8))),
{
    let before = files.take(k);
    let after = files.skip(k + 1);
    assert(files =~= before.push(files[k]) + after);
    lemma_files_bytes_concat(before.push(files[k]), after);
    assert(before.push(files[k]).drop_last() =~= before);
}

/// Changing what one file holds changes the bytes of the files taken in a
/// given order, whatever the other files and the extra strings are.
proof fn lemma_content_change_changes_ordered_input(
    files: Seq<(Seq<char>, Seq<u8>)>,
    k: int,
    contents: Seq<u8>,
    extras: Seq<Seq<char>>,
)
    requires
        0 <= k < files.len(),
        contents != files[k].1,
    ensures
        ordered_input(files, extras) != ordered_input(files.update(k, (files[k].0, contents)), extras),
{
    let changed = files.update(k, (files[k].0, contents));
    lemma_ordered_input_around(files, k, extras);
    lemma_ordered_input_around(changed, k, extras);
    assert(changed.take(k) =~= files.take(k));
    assert(changed.skip(k + 1) =~= files.skip(k + 1));
    let head = files_bytes(files.take(k));
    let rest = files_bytes(files.skip(k + 1)) + strings_bytes(extras, 0u8);
    let path = vstd::utf8::encode_utf8(files[k].0) + seq![0u8];
    let x = file_block(files[k]) + rest;
    let y = file_block(changed[k]) + rest;
    assert(file_block(files[k]) == path + files[k].1 + seq![0u8]);
    assert(file_block(changed[k]) == path + contents + seq![0u8]);
    if ordered_input(files, extras) == ordered_input(changed, extras) {
        head.lemma_concat_injective(x, y);
        assert(x == y);
        if contents.len() == files[k].1.len() {
            assert(exists|m: int| 0 <= m < contents.len() && contents[m] != files[k].1[m]) by {
                if forall|m: int| 0 <= m < contents.len() ==> contents[m] == files[k].1[m] {
                    assert(contents =~= files[k].1);
                }
            }
            let m = choose|m: int| 0 <= m < contents.len() && contents[m] != files[k].1[m];
            assert(x[path.len() + m] == files[k].1[m]);
            assert(y[path.len() + m] == contents[m]);
        } else {
            assert(x.len() != y.len());
        }
    }
}

/// Renaming one file changes the bytes of the files taken in a given order,
/// as long as neither name holds a NUL character.
proof fn lemma_rename_changes_ordered_input(
    files: Seq<(Seq<char>, Seq<u8>)>,
    k: int,
    path: Seq<char>,
    extras: Seq<Seq<char>>,
)
    requires
        0 <= k < files.len(),
        path != files[k].0,
        !path.contains('\0'),
        !files[k].0.contains('\0'),
    ensures
        ordered_input(files, extras) != ordered_input(files.update(k, (path, files[k].1)), extras),
{
    let renamed = files.update(k, (path, files[k].1));
    lemma_ordered_input_around(files, k, extras);
    lemma_ordered_input_around(renamed, k, extras);
    assert(renamed.take(k) =~= files.take(k));
    assert(renamed.skip(k + 1) =~= files.skip(k + 1));
    let head = files_bytes(files.take(k));
    let tail = seq![0u8] + files[k].1 + seq![0u8] + files_bytes(files.skip(k + 1)) + strings_bytes(extras, 0u8);
    let old_name = vstd::utf8::encode_utf8(files[k].0);
    let new_name = vstd::utf8::encode_utf8(path);
    let x = old_name + tail;
    let y = new_name + tail;
    assert(file_block(files[k]) + (files_bytes(files.skip(k + 1)) + strings_bytes(extras, 0u8)) == x);
    assert(file_block(renamed[k]) + (files_bytes(files.skip(k + 1)) + strings_bytes(extras, 0u8)) == y);
    if ordered_input(files, extras) == ordered_input(renamed, extras) {
        head.lemma_concat_injective(x, y);
        assert(x == y);
        assert forall|j: int| 0 <= j < files[k].0.len() implies (#[trigger] files[k].0[j]) as u32 != 0u8 as u32 by {
            assert(files[k].0[j] != '\0');
            if files[k].0[j] as u32 == 0 {
                vstd::utf8::char_u32_cast(files[k].0[j], 0u32);
            }
        }
        assert forall|j: int| 0 <= j < path.len() implies (#[trigger] path[j]) as u32 != 0u8 as u32 by {
            assert(path[j] != '\0');
            if path[j] as u32 == 0 {
                vstd::utf8::char_u32_cast(path[j], 0u32);
            }
        }
        lemma_encoding_free_of(files[k].0, 0u8);
        lemma_encoding_free_of(path, 0u8);
        if old_name.len() == new_name.len() {
            assert(old_name =~= x.take(old_name.len() as int));
            assert(new_name =~= y.take(new_name.len() as int));
            vstd::utf8::encode_utf8_decode_utf8(files[k].0);
            vstd::utf8::encode_utf8_decode_utf8(path);
        } else if old_name.len() < new_name.len() {
            assert(x[old_name.len() as int] == 0u8);
            assert(y[old_name.len() as int] == new_name[old_name.len() as int]);
        } else {
            assert(y[new_name.len() as int] == 0u8);
            assert(x[new_name.len() as int] == old_name[new_name.len() as int]);
        }
    }
}


/// The paths of the files are in strictly increasing order, as the files
/// that `expand_globs` lists.
pub open spec fn in_path_order(files: Seq<(Seq<char>, Seq<u8>)>) -> bool {
    forall|i: int, j: int|
        0 <= i < j < files.len() ==> path_lt(path_components(#[trigger] files[i].0), path_components(#[trigger] files[j].0))
}

/// Two different files are always in order one way or the other.
proof fn lemma_file_lt_relates_all()
    ensures
        forall|x: (Seq<char>, Seq<u8>), y: (Seq<char>, Seq<u8>)| x != y ==> file_lt(x, y) || file_lt(y, x),
{
    assert forall|x: (Seq<char>, Seq<u8>), y: (Seq<char>, Seq<u8>)| x != y implies file_lt(x, y) || file_lt(y, x) by {
        lemma_file_lt_facts(x, y, x);
    }
}

/// The combined hash depends on the files given, not on their order: any
/// rearrangement of them gives the same hashed bytes.
pub proof fn law_hash_ignores_file_order(
    files: Seq<(Seq<char>, Seq<u8>)>,
    rearranged: Seq<(Seq<char>, Seq<u8>)>,
    extras: Seq<Seq<char>>,
)
    requires
        files.to_multiset() == rearranged.to_multiset(),
    ensures
        hash_input(files, extras) == hash_input(rearranged, extras),
        combined_hash(files, extras) == combined_hash(rearranged, extras),
{
    crate::sort::lemma_sort_is_ordered::<FileInput>(files);
    crate::sort::lemma_sort_is_ordered::<FileInput>(rearranged);
    crate::sort::lemma_sort_to_multiset::<FileInput>(files);
    crate::sort::lemma_sort_to_multiset::<FileInput>(rearranged);
    lemma_file_lt_relates_all();
    crate::sort::lemma_ordered_unique::<FileInput>(hash_order(files), hash_order(rearranged));
}

/// Files listed in path order, as `expand_globs` lists them, are hashed in
/// the order given.
pub proof fn law_files_in_path_order_keep_their_order(files: Seq<(Seq<char>, Seq<u8>)>)
    requires
        in_path_order(files),
    ensures
        hash_order(files) == files,
{
    assert forall|i: int, j: int| 0 <= i < j < files.len() implies !file_lt(#[trigger] files[j], #[trigger] files[i]) by {
        let (pi, pj) = (path_components(files[i].0), path_components(files[j].0));
        crate::paths::lemma_path_lt_facts(pi, pj, pi);
    }
    crate::sort::lemma_sort_is_ordered::<FileInput>(files);
    crate::sort::lemma_sort_to_multiset::<FileInput>(files);
    lemma_file_lt_relates_all();
    crate::sort::lemma_ordered_unique::<FileInput>(hash_order(files), files);
}

/// Changing what one file holds changes the bytes that the combined hash
/// digests, whatever the other files and the extra strings are, for files
/// in path order (any list whose paths differ is a rearrangement of one,
/// which `law_hash_ignores_file_order` covers).
pub proof fn law_content_change_changes_hash_input(
    files: Seq<(Seq<char>, Seq<u8>)>,
    k: int,
    contents: Seq<u8>,
    extras: Seq<Seq<char>>,
)
    requires
        in_path_order(files),
        0 <= k < files.len(),
        contents != files[k].1,
    ensures
        hash_input(files, extras) != hash_input(files.update(k, (files[k].0, contents)), extras),
{
    let changed = files.update(k, (files[k].0, contents));
    assert forall|i: int, j: int| 0 <= i < j < changed.len() implies path_lt(
        path_components(#[trigger] changed[i].0),
        path_components(#[trigger] changed[j].0),
    ) by {
        assert(changed[i].0 == files[i].0 && changed[j].0 == files[j].0);
    }
    law_files_in_path_order_keep_their_order(files);
    law_files_in_path_order_keep_their_order(changed);
    lemma_content_change_changes_ordered_input(files, k, contents, extras);
}

/// Renaming one file changes the bytes that the combined hash digests, as
/// long as neither name holds a NUL character, for files in path order
/// before and after the rename (such as a single file).
pub proof fn law_rename_changes_hash_input(
    files: Seq<(Seq<char>, Seq<u8>)>,
    k: int,
    path: Seq<char>,
    extras: Seq<Seq<char>>,
)
    requires
        in_path_order(files),
        in_path_order(files.update(k, (path, files[k].1))),
        0 <= k < files.len(),
        path != files[k].0,
        !path.contains('\0'),
        !files[k].0.contains('\0'),
    ensures
        hash_input(files, extras) != hash_input(files.update(k, (path, files[k].1)), extras),
{
    law_files_in_path_order_keep_their_order(files);
    law_files_in_path_order_keep_their_order(files.update(k, (path, files[k].1)));
    lemma_rename_changes_ordered_input(files, k, path, extras);
}

} // verus!
