use vstd::prelude::*;

use sha1::{Digest, Sha1};

use crate::bencode::{
    byte_vec_views, bytes_eq, copy_range, decode, pair_views_of, spec_parse, spec_value_in_dict,
    value_in_dict, views_of, Bval, BencodeValue,
};
use crate::error::Error;

verus! {

broadcast use vstd::seq::group_seq_axioms, vstd::std_specs::vec::group_vec_axioms;

/// What the SHA-1 digest of a byte sequence is. It is a fixed function of
/// the bytes alone; the outside crate computes it.
pub uninterp spec fn sha1_of(bytes: Seq<u8>) -> Seq<u8>;

/// Relies on digest::Digest::digest as sha1::Sha1 implements it: the
/// SHA-1 digest of the input, 20 bytes, a function of the input bytes
/// alone.
#[verifier::external_body]
fn sha1_digest(bytes: &[u8]) -> (r: Vec<u8>)
    ensures
        r@ == sha1_of(bytes@),
        r@.len() == 20,
{
    Sha1::digest(bytes).to_vec()
}

/// A 160-bit digest, as exactly 20 bytes.
#[derive(Debug, Clone, PartialEq, Eq)]
pub struct Sha1Hash(Vec<u8>);

impl View for Sha1Hash {
    type V = Seq<u8>;

    closed spec fn view(&self) -> Seq<u8> {
        self.0@
    }
}

impl Sha1Hash {
    pub open spec fn well_formed(&self) -> bool {
        self@.len() == 20
    }

    /// Accepts exactly 20 bytes.
    pub fn new(input: Vec<u8>) -> (r: Option<Sha1Hash>)
        ensures
            input@.len() == 20 ==> (r matches Some(h) && h@ == input@),
            input@.len() != 20 ==> r is None,
    {
        if input.len() == 20 {
            Some(Sha1Hash(input))
        } else {
            None
        }
    }

    pub fn to_vec(self) -> (r: Vec<u8>)
        ensures
            r@ == self@,
    {
        self.0
    }

    pub fn as_bytes(&self) -> (r: &[u8])
        ensures
            r@ == self@,
    {
        self.0.as_slice()
    }
}

/// The four bytes of the dictionary key naming the info section.
pub open spec fn info_key() -> Seq<u8> {
    seq![105u8, 110u8, 102u8, 111u8]
}

/// The 160-bit identifying hash of a torrent descriptor: the SHA-1 digest
/// of the exact raw bytes the `info` value occupies in the original
/// buffer. The span is located by the same grammar the decoder uses —
/// never by re-encoding a parsed tree, whose byte layout the wire does
/// not fix.
pub fn get_info_hash(source: &[u8]) -> (r: Result<Sha1Hash, Error>)
    ensures
        match r {
            Ok(h) => h.well_formed() && (spec_value_in_dict(source@, info_key()) matches Some(raw)
                && h@ == sha1_of(raw)),
            Err(e) => spec_value_in_dict(source@, info_key()) is None && (e
                == Error::MalformedBencode || e == Error::SchemaViolation) && ((e
                == Error::MalformedBencode) <==> spec_parse(source@) is None),
        },
{
    let mut key: Vec<u8> = Vec::new();
    key.push(105u8);
    key.push(110u8);
    key.push(102u8);
    key.push(111u8);
    assert(key@ =~= info_key());
    let raw = match value_in_dict(source, key.as_slice()) {
        Ok(raw) => raw,
        Err(e) => {
            return Err(e);
        },
    };
    let digest = sha1_digest(raw.as_slice());
    match Sha1Hash::new(digest) {
        Some(h) => Ok(h),
        None => Err(Error::SchemaViolation),  // unreachable: the digest has 20 bytes
    }
}

/// The identifying hash is a function of the raw `info` span alone: two
/// buffers whose `info` values occupy byte-for-byte identical spans hash
/// identically, however much the buffers differ outside those spans —
/// in particular, byte-identical files hash identically.
pub proof fn lemma_info_hash_from_span(s1: Seq<u8>, s2: Seq<u8>)
    requires
        spec_value_in_dict(s1, info_key()) == spec_value_in_dict(s2, info_key()),
    ensures
        spec_value_in_dict(s1, info_key()) matches Some(r1) ==> (spec_value_in_dict(
            s2,
            info_key(),
        ) matches Some(r2) && sha1_of(r1) == sha1_of(r2)),
{
}

/// The 20-byte pieces of a `pieces` byte string, in order.
pub open spec fn chunks20(s: Seq<u8>) -> Seq<Seq<u8>>
    decreases s.len(),
{
    if s.len() == 0 {
        Seq::empty()
    } else if s.len() < 20 {
        seq![s]
    } else {
        seq![s.take(20)] + chunks20(s.skip(20))
    }
}

proof fn lemma_chunks20_append(a: Seq<u8>, b: Seq<u8>)
    requires
        a.len() % 20 == 0,
    ensures
        chunks20(a + b) == chunks20(a) + chunks20(b),
    decreases a.len(),
{
    if a.len() == 0 {
        assert(a + b =~= b);
        assert(chunks20(a) + chunks20(b) =~= chunks20(b));
    } else {
        assert(a.len() >= 20);
        assert((a + b).take(20) =~= a.take(20));
        assert((a + b).skip(20) =~= a.skip(20) + b);
        assert(a.skip(20).len() % 20 == 0);
        lemma_chunks20_append(a.skip(20), b);
        if b.len() == 0 {
            assert(a + b =~= a);
            assert(a.skip(20) + b =~= a.skip(20));
            assert(chunks20(a) + chunks20(b) =~= chunks20(a));
        } else {
            assert((a + b).len() >= 20);
            assert(chunks20(a + b) == seq![(a + b).take(20)] + chunks20((a + b).skip(20)));
            assert(chunks20(a + b) =~= chunks20(a) + chunks20(b));
        }
    }
}

/// The views of a sequence of hashes.
pub open spec fn hash_views(hs: Seq<Sha1Hash>) -> Seq<Seq<u8>> {
    Seq::new(hs.len(), |i: int| hs[i]@)
}

/// Splits a `pieces` byte string into its 20-byte hash records; a length
/// that is not an exact multiple of 20 is a schema violation.
pub fn pieces_from_bytes(bytes: &[u8]) -> (r: Result<Vec<Sha1Hash>, Error>)
    ensures
        match r {
            Ok(hs) => bytes@.len() % 20 == 0 && hash_views(hs@) == chunks20(bytes@) && forall|
                i: int,
            |
                0 <= i < hs@.len() ==> (#[trigger] hs@[i]).well_formed(),
            Err(e) => e == Error::SchemaViolation && bytes@.len() % 20 != 0,
        },
{
    if bytes.len() % 20 != 0 {
        return Err(Error::SchemaViolation);
    }
    let mut hs: Vec<Sha1Hash> = Vec::new();
    let mut done: usize = 0;
    while done < bytes.len()
        invariant
            done <= bytes@.len(),
            done % 20 == 0,
            bytes@.len() % 20 == 0,
            hash_views(hs@) == chunks20(bytes@.take(done as int)),
            forall|i: int| 0 <= i < hs@.len() ==> (#[trigger] hs@[i]).well_formed(),
        decreases bytes@.len() - done,
    {
        assert(bytes@.len() - done >= 20) by (nonlinear_arith)
            requires
                done < bytes@.len(),
                done % 20 == 0,
                bytes@.len() % 20 == 0,
        ;
        let chunk = copy_range(bytes, done, done + 20);
        let h = match Sha1Hash::new(chunk) {
            Some(h) => h,
            None => {
                proof {
                    assert(false);
                }
                return Err(Error::SchemaViolation);
            },
        };
        let ghost pre = hs@;
        hs.push(h);
        proof {
            let t = bytes@.take(done as int);
            let c = bytes@.subrange(done as int, done + 20);
            assert(bytes@.take(done + 20) =~= t + c);
            lemma_chunks20_append(t, c);
            assert(c.take(20) =~= c);
            assert(c.skip(20) =~= Seq::<u8>::empty());
            assert(chunks20(c.skip(20)) =~= Seq::<Seq<u8>>::empty());
            assert(chunks20(c) =~= seq![c]);
            assert(hash_views(hs@) =~= hash_views(pre).push(h@));
            assert(hash_views(hs@) =~= chunks20(bytes@.take(done + 20)));
        }
        done += 20;
    }
    proof {
        assert(bytes@.take(bytes@.len() as int) =~= bytes@);
    }
    Ok(hs)
}

/// A single entry of a multi-file info section, as mathematical data.
#[verifier::ext_equal]
pub ghost struct FileDataView {
    pub length: u64,
    pub path: Seq<Seq<u8>>,
}

/// A single-file info section, as mathematical data.
#[verifier::ext_equal]
pub ghost struct MiInfoView {
    pub name: Seq<u8>,
    pub piece_length: u64,
    pub pieces: Seq<Seq<u8>>,
    pub length: u64,
}

/// A multi-file info section, as mathematical data.
#[verifier::ext_equal]
pub ghost struct MiMultiInfoView {
    pub name: Seq<u8>,
    pub piece_length: u64,
    pub pieces: Seq<Seq<u8>>,
    pub files: Seq<FileDataView>,
}

/// An info section: single-file or multi-file.
#[verifier::ext_equal]
pub ghost enum InfoView {
    Single(MiInfoView),
    Multi(MiMultiInfoView),
}

/// A whole torrent descriptor, as mathematical data.
#[verifier::ext_equal]
pub ghost struct MetaInfoView {
    pub announce: Seq<u8>,
    pub info: InfoView,
    pub announce_list: Option<Seq<Seq<Seq<u8>>>>,
    pub url_list: Option<Seq<Seq<u8>>>,
    pub created_by: Option<Seq<u8>>,
    pub comment: Option<Seq<u8>>,
    pub creation_date: Option<i64>,
}

/// One file record of a multi-file torrent: a length in bytes and the
/// path components of where it lives.
#[derive(Debug, Clone, PartialEq, Eq)]
pub struct MiFileData {
    pub length: u64,
    pub path: Vec<Vec<u8>>,
}

impl View for MiFileData {
    type V = FileDataView;

    open spec fn view(&self) -> FileDataView {
        FileDataView { length: self.length, path: byte_vec_views(self.path@) }
    }
}

/// A single-file info section.
#[derive(Debug, Clone, PartialEq, Eq)]
pub struct MiInfo {
    pub name: Vec<u8>,
    pub piece_length: u64,
    pub pieces: Vec<Sha1Hash>,
    pub length: u64,
}

impl View for MiInfo {
    type V = MiInfoView;

    open spec fn view(&self) -> MiInfoView {
        MiInfoView {
            name: self.name@,
            piece_length: self.piece_length,
            pieces: hash_views(self.pieces@),
            length: self.length,
        }
    }
}

/// A multi-file info section.
#[derive(Debug, Clone, PartialEq, Eq)]
pub struct MiMultiInfo {
    pub name: Vec<u8>,
    pub piece_length: u64,
    pub pieces: Vec<Sha1Hash>,
    pub files: Vec<MiFileData>,
}

impl View for MiMultiInfo {
    type V = MiMultiInfoView;

    open spec fn view(&self) -> MiMultiInfoView {
        MiMultiInfoView {
            name: self.name@,
            piece_length: self.piece_length,
            pieces: hash_views(self.pieces@),
            files: fd_views(self.files@),
        }
    }
}

/// The info section of a descriptor, a closed choice of its two shapes.
#[derive(Debug, Clone, PartialEq, Eq)]
pub enum Info {
    MiInfo(MiInfo),
    MiMultiInfo(MiMultiInfo),
}

impl View for Info {
    type V = InfoView;

    open spec fn view(&self) -> InfoView {
        match self {
            Info::MiInfo(si) => InfoView::Single(si@),
            Info::MiMultiInfo(mi) => InfoView::Multi(mi@),
        }
    }
}

/// The sum of the file lengths an info section describes.
pub open spec fn sum_lengths(fs: Seq<FileDataView>) -> int
    decreases fs.len(),
{
    if fs.len() == 0 {
        0
    } else {
        fs[0].length + sum_lengths(fs.drop_first())
    }
}

pub open spec fn spec_total_length(iv: InfoView) -> int {
    match iv {
        InfoView::Single(si) => si.length as int,
        InfoView::Multi(mi) => sum_lengths(mi.files),
    }
}

proof fn lemma_sum_lengths_split(fs: Seq<FileDataView>, i: int)
    requires
        0 <= i <= fs.len(),
    ensures
        sum_lengths(fs) == sum_lengths(fs.take(i)) + sum_lengths(fs.skip(i)),
        sum_lengths(fs.take(i)) >= 0,
    decreases i,
{
    if i == 0 {
        assert(fs.take(0) =~= Seq::<FileDataView>::empty());
        assert(fs.skip(0) =~= fs);
    } else {
        lemma_sum_lengths_split(fs.drop_first(), i - 1);
        assert(fs.drop_first().take(i - 1) =~= fs.take(i).drop_first());
        assert(fs.drop_first().skip(i - 1) =~= fs.skip(i));
        assert(fs.take(i)[0] == fs[0]);
        assert(sum_lengths(fs.take(i)) == fs[0].length + sum_lengths(fs.take(i).drop_first()));
    }
}

impl Info {
    /// The total byte length of the shared content: the single file's
    /// length, or the sum over the file records.
    pub fn length(&self) -> (r: u64)
        requires
            spec_total_length(self@) <= u64::MAX,
        ensures
            r as int == spec_total_length(self@),
    {
        match self {
            Info::MiInfo(si) => si.length,
            Info::MiMultiInfo(mi) => {
                let ghost fvs = mi@.files;
                let mut sum: u64 = 0;
                let mut i: usize = 0;
                proof {
                    lemma_sum_lengths_split(fvs, 0);
                }
                while i < mi.files.len()
                    invariant
                        i <= mi.files@.len(),
                        fvs == mi@.files,
                        fvs.len() == mi.files@.len(),
                        sum as int == sum_lengths(fvs.take(i as int)),
                        sum_lengths(fvs) <= u64::MAX,
                        forall|j: int| 0 <= j < fvs.len() ==> #[trigger] fvs[j] == mi.files@[j]@,
                    decreases mi.files@.len() - i,
                {
                    proof {
                        lemma_sum_lengths_split(fvs, i as int);
                        lemma_sum_lengths_split(fvs.skip(i as int), 1);
                        assert(fvs.skip(i as int).take(1) =~= seq![fvs[i as int]]);
                        assert(sum_lengths(seq![fvs[i as int]]) == fvs[i as int].length) by {
                            assert(seq![fvs[i as int]].drop_first()
                                =~= Seq::<FileDataView>::empty());
                        }
                        assert(fvs.skip(i as int).skip(1) =~= fvs.skip(i + 1));
                        assert(fvs.take(i + 1) =~= fvs.take(i as int) + seq![fvs[i as int]]);
                        lemma_sum_lengths_split(fvs.take(i + 1), i as int);
                        assert(fvs.take(i + 1).take(i as int) =~= fvs.take(i as int));
                        assert(fvs.take(i + 1).skip(i as int) =~= seq![fvs[i as int]]);
                        lemma_sum_lengths_split(fvs, i + 1);
                        assert(sum_lengths(fvs.skip(i + 1)) >= 0) by {
                            lemma_sum_lengths_split(fvs.skip(i + 1), fvs.skip(i + 1).len() as int);
                            assert(fvs.skip(i + 1).take(fvs.skip(i + 1).len() as int) =~= fvs.skip(
                                i + 1,
                            ));
                        }
                        assert(fvs[i as int] == mi.files@[i as int]@);
                    }
                    sum = sum + mi.files[i].length;
                    i += 1;
                }
                proof {
                    assert(fvs.take(fvs.len() as int) =~= fvs);
                }
                sum
            },
        }
    }
}

/// A torrent descriptor: the tracker to announce to, the info section,
/// and the optional metadata commonly found beside them.
#[derive(Debug, Clone, PartialEq, Eq)]
pub struct MetaInfo {
    pub announce: Vec<u8>,
    pub info: Info,
    pub announce_list: Option<Vec<Vec<Vec<u8>>>>,
    pub url_list: Option<Vec<Vec<u8>>>,
    pub created_by: Option<Vec<u8>>,
    pub comment: Option<Vec<u8>>,
    pub creation_date: Option<i64>,
}

impl View for MetaInfo {
    type V = MetaInfoView;

    open spec fn view(&self) -> MetaInfoView {
        MetaInfoView {
            announce: self.announce@,
            info: self.info@,
            announce_list: match self.announce_list {
                Some(ref tiers) => Some(byte_vec2_views(tiers@)),
                None => None,
            },
            url_list: match self.url_list {
                Some(ref urls) => Some(byte_vec_views(urls@)),
                None => None,
            },
            created_by: match self.created_by {
                Some(ref c) => Some(c@),
                None => None,
            },
            comment: match self.comment {
                Some(ref c) => Some(c@),
                None => None,
            },
            creation_date: self.creation_date,
        }
    }
}

/// The value stored under key `k`, if any.
pub open spec fn dict_lookup(ps: Seq<(Seq<u8>, Bval)>, k: Seq<u8>) -> Option<Bval>
    decreases ps.len(),
{
    if ps.len() == 0 {
        None
    } else if ps[0].0 == k {
        Some(ps[0].1)
    } else {
        dict_lookup(ps.drop_first(), k)
    }
}

pub open spec fn key_announce() -> Seq<u8> {
    seq![97u8, 110u8, 110u8, 111u8, 117u8, 110u8, 99u8, 101u8]
}

pub open spec fn key_announce_list() -> Seq<u8> {
    seq![97u8, 110u8, 110u8, 111u8, 117u8, 110u8, 99u8, 101u8, 45u8, 108u8, 105u8, 115u8, 116u8]
}

pub open spec fn key_url_list() -> Seq<u8> {
    seq![117u8, 114u8, 108u8, 45u8, 108u8, 105u8, 115u8, 116u8]
}

pub open spec fn key_created_by() -> Seq<u8> {
    seq![99u8, 114u8, 101u8, 97u8, 116u8, 101u8, 100u8, 32u8, 98u8, 121u8]
}

pub open spec fn key_comment() -> Seq<u8> {
    seq![99u8, 111u8, 109u8, 109u8, 101u8, 110u8, 116u8]
}

pub open spec fn key_creation_date() -> Seq<u8> {
    seq![99u8, 114u8, 101u8, 97u8, 116u8, 105u8, 111u8, 110u8, 32u8, 100u8, 97u8, 116u8, 101u8]
}

pub open spec fn key_name() -> Seq<u8> {
    seq![110u8, 97u8, 109u8, 101u8]
}

pub open spec fn key_piece_length() -> Seq<u8> {
    seq![112u8, 105u8, 101u8, 99u8, 101u8, 32u8, 108u8, 101u8, 110u8, 103u8, 116u8, 104u8]
}

pub open spec fn key_pieces() -> Seq<u8> {
    seq![112u8, 105u8, 101u8, 99u8, 101u8, 115u8]
}

pub open spec fn key_length() -> Seq<u8> {
    seq![108u8, 101u8, 110u8, 103u8, 116u8, 104u8]
}

pub open spec fn key_files() -> Seq<u8> {
    seq![102u8, 105u8, 108u8, 101u8, 115u8]
}

pub open spec fn key_path() -> Seq<u8> {
    seq![112u8, 97u8, 116u8, 104u8]
}

/// The contents of a list all of whose elements are byte strings.
pub open spec fn str_seq_of(items: Seq<Bval>) -> Option<Seq<Seq<u8>>>
    decreases items.len(),
{
    if items.len() == 0 {
        Some(Seq::empty())
    } else {
        match items[0] {
            Bval::ByteString(c) => match str_seq_of(items.drop_first()) {
                Some(r) => Some(seq![c] + r),
                None => None,
            },
            _ => None,
        }
    }
}

/// The contents of a list of lists of byte strings (tiered trackers).
pub open spec fn str_seq2_of(items: Seq<Bval>) -> Option<Seq<Seq<Seq<u8>>>>
    decreases items.len(),
{
    if items.len() == 0 {
        Some(Seq::empty())
    } else {
        match items[0] {
            Bval::List(inner) => match (str_seq_of(inner), str_seq2_of(items.drop_first())) {
                (Some(tier), Some(r)) => Some(seq![tier] + r),
                _ => None,
            },
            _ => None,
        }
    }
}

/// One file record: a dictionary with a nonnegative `length` and a `path`
/// of byte-string components.
pub open spec fn spec_file_data(v: Bval) -> Option<FileDataView> {
    match v {
        Bval::Dictionary(ps) => match (dict_lookup(ps, key_length()), dict_lookup(
            ps,
            key_path(),
        )) {
            (Some(Bval::Integer(l)), Some(Bval::List(items))) => if l >= 0 {
                match str_seq_of(items) {
                    Some(path) => Some(FileDataView { length: l as u64, path }),
                    None => None,
                }
            } else {
                None
            },
            _ => None,
        },
        _ => None,
    }
}

/// The file records of a multi-file info section.
pub open spec fn files_of(items: Seq<Bval>) -> Option<Seq<FileDataView>>
    decreases items.len(),
{
    if items.len() == 0 {
        Some(Seq::empty())
    } else {
        match (spec_file_data(items[0]), files_of(items.drop_first())) {
            (Some(fd), Some(r)) => Some(seq![fd] + r),
            _ => None,
        }
    }
}

/// The info section a decoded value describes: a dictionary holding
/// `name`, a nonnegative `piece length`, `pieces` whose byte length is an
/// exact multiple of 20 — split into 20-byte hash records — and exactly
/// one of a nonnegative `length` (single file) or a well-formed `files`
/// list (multi file). Both or neither present is a schema violation.
pub open spec fn spec_info(v: Bval) -> Option<InfoView> {
    match v {
        Bval::Dictionary(ps) => match (dict_lookup(ps, key_name()), dict_lookup(
            ps,
            key_piece_length(),
        ), dict_lookup(ps, key_pieces())) {
            (
                Some(Bval::ByteString(nm)),
                Some(Bval::Integer(plv)),
                Some(Bval::ByteString(pb)),
            ) => if plv >= 0 && pb.len() % 20 == 0 {
                match (dict_lookup(ps, key_length()), dict_lookup(ps, key_files())) {
                    (Some(Bval::Integer(l)), None) => if l >= 0 {
                        Some(
                            InfoView::Single(
                                MiInfoView {
                                    name: nm,
                                    piece_length: plv as u64,
                                    pieces: chunks20(pb),
                                    length: l as u64,
                                },
                            ),
                        )
                    } else {
                        None
                    },
                    (None, Some(Bval::List(items))) => match files_of(items) {
                        Some(files) => Some(
                            InfoView::Multi(
                                MiMultiInfoView {
                                    name: nm,
                                    piece_length: plv as u64,
                                    pieces: chunks20(pb),
                                    files,
                                },
                            ),
                        ),
                        None => None,
                    },
                    _ => None,
                }
            } else {
                None
            },
            _ => None,
        },
        _ => None,
    }
}

/// An optional byte-string field: absent is fine; present with another
/// type is a schema violation.
pub open spec fn opt_bytes_field(ps: Seq<(Seq<u8>, Bval)>, k: Seq<u8>) -> Option<Option<Seq<u8>>> {
    match dict_lookup(ps, k) {
        None => Some(None),
        Some(Bval::ByteString(c)) => Some(Some(c)),
        Some(_) => None,
    }
}

/// An optional integer field.
pub open spec fn opt_int_field(ps: Seq<(Seq<u8>, Bval)>, k: Seq<u8>) -> Option<Option<i64>> {
    match dict_lookup(ps, k) {
        None => Some(None),
        Some(Bval::Integer(i)) => Some(Some(i)),
        Some(_) => None,
    }
}

/// An optional list-of-byte-strings field.
pub open spec fn opt_str_list_field(ps: Seq<(Seq<u8>, Bval)>, k: Seq<u8>) -> Option<
    Option<Seq<Seq<u8>>>,
> {
    match dict_lookup(ps, k) {
        None => Some(None),
        Some(Bval::List(items)) => match str_seq_of(items) {
            Some(r) => Some(Some(r)),
            None => None,
        },
        Some(_) => None,
    }
}

/// An optional list-of-lists-of-byte-strings field.
pub open spec fn opt_str_list2_field(ps: Seq<(Seq<u8>, Bval)>, k: Seq<u8>) -> Option<
    Option<Seq<Seq<Seq<u8>>>>,
> {
    match dict_lookup(ps, k) {
        None => Some(None),
        Some(Bval::List(items)) => match str_seq2_of(items) {
            Some(r) => Some(Some(r)),
            None => None,
        },
        Some(_) => None,
    }
}

/// The descriptor a whole buffer denotes: a single well-formed bencode
/// dictionary holding `announce` and a well-formed info section, with the
/// optional fields well-typed where present.
pub open spec fn spec_metainfo(s: Seq<u8>) -> Option<MetaInfoView> {
    match spec_parse(s) {
        Some((Bval::Dictionary(ps), n)) => match (dict_lookup(ps, key_announce()), dict_lookup(
            ps,
            info_key(),
        )) {
            (Some(Bval::ByteString(ann)), Some(infov)) => match spec_info(infov) {
                Some(iv) => match (opt_str_list2_field(ps, key_announce_list()), opt_str_list_field(
                    ps,
                    key_url_list(),
                ), opt_bytes_field(ps, key_created_by()), opt_bytes_field(
                    ps,
                    key_comment(),
                ), opt_int_field(ps, key_creation_date())) {
                    (Some(al), Some(ul), Some(cb), Some(cm), Some(cd)) => Some(
                        MetaInfoView {
                            announce: ann,
                            info: iv,
                            announce_list: al,
                            url_list: ul,
                            created_by: cb,
                            comment: cm,
                            creation_date: cd,
                        },
                    ),
                    _ => None,
                },
                None => None,
            },
            _ => None,
        },
        Some((_, n)) => None,
        None => None,
    }
}

/// The views of a sequence of lists of byte vectors.
pub open spec fn byte_vec2_views(vs: Seq<Vec<Vec<u8>>>) -> Seq<Seq<Seq<u8>>> {
    Seq::new(vs.len(), |i: int| byte_vec_views(vs[i]@))
}

/// The views of a sequence of file records.
pub open spec fn fd_views(fs: Seq<MiFileData>) -> Seq<FileDataView> {
    Seq::new(fs.len(), |i: int| fs[i]@)
}

fn to_bytes(v: &Vec<u8>) -> (r: Vec<u8>)
    ensures
        r@ == v@,
{
    copy_range(v.as_slice(), 0, v.len())
}

/// First entry stored under `key`, by bytewise comparison.
fn find_key<'a>(ps: &'a Vec<(Vec<u8>, BencodeValue)>, key: &[u8]) -> (r: Option<
    &'a BencodeValue,
>)
    ensures
        match r {
            Some(v) => dict_lookup(pair_views_of(ps@), key@) == Some(v@),
            None => dict_lookup(pair_views_of(ps@), key@) is None,
        },
{
    proof {
        crate::bencode::lemma_pair_views_of(ps@);
    }
    let ghost pvs = pair_views_of(ps@);
    proof {
        assert(pvs.skip(0) =~= pvs);
    }
    let mut i: usize = 0;
    while i < ps.len()
        invariant
            i <= ps@.len(),
            pvs == pair_views_of(ps@),
            pvs.len() == ps@.len(),
            forall|j: int| 0 <= j < pvs.len() ==> #[trigger] pvs[j] == (ps@[j].0@, ps@[j].1@),
            dict_lookup(pvs, key@) == dict_lookup(pvs.skip(i as int), key@),
        decreases ps@.len() - i,
    {
        if bytes_eq(ps[i].0.as_slice(), key) {
            proof {
                assert(pvs.skip(i as int)[0] == pvs[i as int]);
            }
            return Some(&ps[i].1);
        }
        proof {
            assert(pvs.skip(i as int)[0] == pvs[i as int]);
            assert(pvs.skip(i as int).drop_first() =~= pvs.skip(i + 1));
        }
        i += 1;
    }
    proof {
        assert(pvs.skip(i as int).len() == 0);
    }
    None
}

/// Extracts a list all of whose elements must be byte strings.
fn bytes_list_of(items: &Vec<BencodeValue>) -> (r: Result<Vec<Vec<u8>>, Error>)
    ensures
        match r {
            Ok(out) => str_seq_of(views_of(items@)) == Some(byte_vec_views(out@)),
            Err(e) => e == Error::SchemaViolation && str_seq_of(views_of(items@)) is None,
        },
{
    proof {
        crate::bencode::lemma_views_of(items@);
    }
    let ghost vs = views_of(items@);
    let mut out: Vec<Vec<u8>> = Vec::new();
    proof {
        assert(vs.skip(0) =~= vs);
        assert(byte_vec_views(out@) =~= Seq::<Seq<u8>>::empty());
        assert forall|r: Seq<Seq<u8>>| str_seq_of(vs) == Some(r) implies str_seq_of(vs) == Some(
            byte_vec_views(out@) + r,
        ) by {
            assert(byte_vec_views(out@) + r =~= r);
        }
    }
    let mut i: usize = 0;
    while i < items.len()
        invariant
            i <= items@.len(),
            vs == views_of(items@),
            vs.len() == items@.len(),
            forall|j: int| 0 <= j < vs.len() ==> #[trigger] vs[j] == items@[j]@,
            forall|r: Seq<Seq<u8>>|
                str_seq_of(vs.skip(i as int)) == Some(r) ==> str_seq_of(vs) == Some(
                    byte_vec_views(out@) + r,
                ),
            str_seq_of(vs.skip(i as int)) is None ==> str_seq_of(vs) is None,
        decreases items@.len() - i,
    {
        let ghost pre = out@;
        proof {
            assert(vs.skip(i as int)[0] == vs[i as int]);
            assert(vs.skip(i as int).drop_first() =~= vs.skip(i + 1));
        }
        match &items[i] {
            BencodeValue::ByteString(b) => {
                out.push(to_bytes(b));
                proof {
                    assert(byte_vec_views(out@) =~= byte_vec_views(pre).push(b@));
                    assert forall|r: Seq<Seq<u8>>|
                        str_seq_of(vs.skip(i + 1)) == Some(r) implies str_seq_of(vs) == Some(
                        byte_vec_views(out@) + r,
                    ) by {
                        assert(str_seq_of(vs.skip(i as int)) == Some(seq![b@] + r));
                        assert(byte_vec_views(pre) + (seq![b@] + r) =~= byte_vec_views(out@) + r);
                    }
                }
            },
            _ => {
                proof {
                    assert(str_seq_of(vs.skip(i as int)) is None);
                }
                return Err(Error::SchemaViolation);
            },
        }
        i += 1;
    }
    proof {
        assert(vs.skip(vs.len() as int).len() == 0);
        assert(str_seq_of(vs.skip(vs.len() as int)) == Some(Seq::<Seq<u8>>::empty()));
        assert(byte_vec_views(out@) + Seq::<Seq<u8>>::empty() =~= byte_vec_views(out@));
    }
    Ok(out)
}

/// Extracts a list of lists of byte strings.
fn bytes_list2_of(items: &Vec<BencodeValue>) -> (r: Result<Vec<Vec<Vec<u8>>>, Error>)
    ensures
        match r {
            Ok(out) => str_seq2_of(views_of(items@)) == Some(byte_vec2_views(out@)),
            Err(e) => e == Error::SchemaViolation && str_seq2_of(views_of(items@)) is None,
        },
{
    proof {
        crate::bencode::lemma_views_of(items@);
    }
    let ghost vs = views_of(items@);
    let mut out: Vec<Vec<Vec<u8>>> = Vec::new();
    proof {
        assert(vs.skip(0) =~= vs);
        assert(byte_vec2_views(out@) =~= Seq::<Seq<Seq<u8>>>::empty());
        assert forall|r: Seq<Seq<Seq<u8>>>| str_seq2_of(vs) == Some(r) implies str_seq2_of(vs)
            == Some(byte_vec2_views(out@) + r) by {
            assert(byte_vec2_views(out@) + r =~= r);
        }
    }
    let mut i: usize = 0;
    while i < items.len()
        invariant
            i <= items@.len(),
            vs == views_of(items@),
            vs.len() == items@.len(),
            forall|j: int| 0 <= j < vs.len() ==> #[trigger] vs[j] == items@[j]@,
            forall|r: Seq<Seq<Seq<u8>>>|
                str_seq2_of(vs.skip(i as int)) == Some(r) ==> str_seq2_of(vs) == Some(
                    byte_vec2_views(out@) + r,
                ),
            str_seq2_of(vs.skip(i as int)) is None ==> str_seq2_of(vs) is None,
        decreases items@.len() - i,
    {
        let ghost pre = out@;
        proof {
            assert(vs.skip(i as int)[0] == vs[i as int]);
            assert(vs.skip(i as int).drop_first() =~= vs.skip(i + 1));
        }
        match &items[i] {
            BencodeValue::List(inner) => {
                let tier = match bytes_list_of(inner) {
                    Ok(t) => t,
                    Err(e) => {
                        proof {
                            assert(str_seq2_of(vs.skip(i as int)) is None);
                        }
                        return Err(e);
                    },
                };
                let ghost tv = byte_vec_views(tier@);
                out.push(tier);
                proof {
                    assert(byte_vec2_views(out@) =~= byte_vec2_views(pre).push(tv));
                    assert forall|r: Seq<Seq<Seq<u8>>>|
                        str_seq2_of(vs.skip(i + 1)) == Some(r) implies str_seq2_of(vs) == Some(
                        byte_vec2_views(out@) + r,
                    ) by {
                        assert(str_seq2_of(vs.skip(i as int)) == Some(seq![tv] + r));
                        assert(byte_vec2_views(pre) + (seq![tv] + r) =~= byte_vec2_views(out@)
                            + r);
                    }
                }
            },
            _ => {
                proof {
                    assert(str_seq2_of(vs.skip(i as int)) is None);
                }
                return Err(Error::SchemaViolation);
            },
        }
        i += 1;
    }
    proof {
        assert(vs.skip(vs.len() as int).len() == 0);
        assert(str_seq2_of(vs.skip(vs.len() as int)) == Some(Seq::<Seq<Seq<u8>>>::empty()));
        assert(byte_vec2_views(out@) + Seq::<Seq<Seq<u8>>>::empty() =~= byte_vec2_views(out@));
    }
    Ok(out)
}

/// Extracts one file record.
fn file_from_bval(v: &BencodeValue) -> (r: Result<MiFileData, Error>)
    ensures
        match r {
            Ok(fd) => spec_file_data(v@) == Some(fd@),
            Err(e) => e == Error::SchemaViolation && spec_file_data(v@) is None,
        },
{
    let ps = match v {
        BencodeValue::Dictionary(ps) => ps,
        _ => {
            return Err(Error::SchemaViolation);
        },
    };
    let klen: [u8; 6] = [108u8, 101u8, 110u8, 103u8, 116u8, 104u8];
    assert(klen@ =~= key_length());
    let kpath: [u8; 4] = [112u8, 97u8, 116u8, 104u8];
    assert(kpath@ =~= key_path());
    let length: u64 = match find_key(ps, klen.as_slice()) {
        Some(BencodeValue::Integer(l)) => {
            if *l < 0 {
                return Err(Error::SchemaViolation);
            }
            *l as u64
        },
        _ => {
            return Err(Error::SchemaViolation);
        },
    };
    let path = match find_key(ps, kpath.as_slice()) {
        Some(BencodeValue::List(items)) => match bytes_list_of(items) {
            Ok(p) => p,
            Err(e) => {
                return Err(e);
            },
        },
        _ => {
            return Err(Error::SchemaViolation);
        },
    };
    let fd = MiFileData { length, path };
    proof {
        assert(fd@.path =~= byte_vec_views(fd.path@));
        assert(spec_file_data(v@) == Some(fd@)) by {
            assert(fd@ =~= spec_file_data(v@)->Some_0);
        }
    }
    Ok(fd)
}

/// Extracts the `files` list of a multi-file info section.
fn files_list_of(items: &Vec<BencodeValue>) -> (r: Result<Vec<MiFileData>, Error>)
    ensures
        match r {
            Ok(out) => files_of(views_of(items@)) == Some(fd_views(out@)),
            Err(e) => e == Error::SchemaViolation && files_of(views_of(items@)) is None,
        },
{
    proof {
        crate::bencode::lemma_views_of(items@);
    }
    let ghost vs = views_of(items@);
    let mut out: Vec<MiFileData> = Vec::new();
    proof {
        assert(vs.skip(0) =~= vs);
        assert(fd_views(out@) =~= Seq::<FileDataView>::empty());
        assert forall|r: Seq<FileDataView>| files_of(vs) == Some(r) implies files_of(vs) == Some(
            fd_views(out@) + r,
        ) by {
            assert(fd_views(out@) + r =~= r);
        }
    }
    let mut i: usize = 0;
    while i < items.len()
        invariant
            i <= items@.len(),
            vs == views_of(items@),
            vs.len() == items@.len(),
            forall|j: int| 0 <= j < vs.len() ==> #[trigger] vs[j] == items@[j]@,
            forall|r: Seq<FileDataView>|
                files_of(vs.skip(i as int)) == Some(r) ==> files_of(vs) == Some(
                    fd_views(out@) + r,
                ),
            files_of(vs.skip(i as int)) is None ==> files_of(vs) is None,
        decreases items@.len() - i,
    {
        let ghost pre = out@;
        proof {
            assert(vs.skip(i as int)[0] == vs[i as int]);
            assert(vs.skip(i as int).drop_first() =~= vs.skip(i + 1));
        }
        let fd = match file_from_bval(&items[i]) {
            Ok(fd) => fd,
            Err(e) => {
                proof {
                    assert(files_of(vs.skip(i as int)) is None);
                }
                return Err(e);
            },
        };
        let ghost fdv = fd@;
        out.push(fd);
        proof {
            assert(fd_views(out@) =~= fd_views(pre).push(fdv));
            assert forall|r: Seq<FileDataView>|
                files_of(vs.skip(i + 1)) == Some(r) implies files_of(vs) == Some(
                fd_views(out@) + r,
            ) by {
                assert(files_of(vs.skip(i as int)) == Some(seq![fdv] + r));
                assert(fd_views(pre) + (seq![fdv] + r) =~= fd_views(out@) + r);
            }
        }
        i += 1;
    }
    proof {
        assert(vs.skip(vs.len() as int).len() == 0);
        assert(files_of(vs.skip(vs.len() as int)) == Some(Seq::<FileDataView>::empty()));
        assert(fd_views(out@) + Seq::<FileDataView>::empty() =~= fd_views(out@));
    }
    Ok(out)
}

/// Extracts the info section.
fn info_from_bval(v: &BencodeValue) -> (r: Result<Info, Error>)
    ensures
        match r {
            Ok(info) => spec_info(v@) == Some(info@),
            Err(e) => e == Error::SchemaViolation && spec_info(v@) is None,
        },
{
    let ps = match v {
        BencodeValue::Dictionary(ps) => ps,
        _ => {
            return Err(Error::SchemaViolation);
        },
    };
    let kname: [u8; 4] = [110u8, 97u8, 109u8, 101u8];
    assert(kname@ =~= key_name());
    let kplen: [u8; 12] = [
        112u8, 105u8, 101u8, 99u8, 101u8, 32u8, 108u8, 101u8, 110u8, 103u8, 116u8, 104u8,
    ];
    assert(kplen@ =~= key_piece_length());
    let kpieces: [u8; 6] = [112u8, 105u8, 101u8, 99u8, 101u8, 115u8];
    assert(kpieces@ =~= key_pieces());
    let klen: [u8; 6] = [108u8, 101u8, 110u8, 103u8, 116u8, 104u8];
    assert(klen@ =~= key_length());
    let kfiles: [u8; 5] = [102u8, 105u8, 108u8, 101u8, 115u8];
    assert(kfiles@ =~= key_files());
    let name: Vec<u8> = match find_key(ps, kname.as_slice()) {
        Some(BencodeValue::ByteString(b)) => to_bytes(b),
        _ => {
            return Err(Error::SchemaViolation);
        },
    };
    let piece_length: u64 = match find_key(ps, kplen.as_slice()) {
        Some(BencodeValue::Integer(l)) => {
            if *l < 0 {
                return Err(Error::SchemaViolation);
            }
            *l as u64
        },
        _ => {
            return Err(Error::SchemaViolation);
        },
    };
    let pieces: Vec<Sha1Hash> = match find_key(ps, kpieces.as_slice()) {
        Some(BencodeValue::ByteString(b)) => match pieces_from_bytes(b.as_slice()) {
            Ok(hs) => hs,
            Err(e) => {
                return Err(e);
            },
        },
        _ => {
            return Err(Error::SchemaViolation);
        },
    };
    match (find_key(ps, klen.as_slice()), find_key(ps, kfiles.as_slice())) {
        (Some(BencodeValue::Integer(l)), None) => {
            if *l < 0 {
                return Err(Error::SchemaViolation);
            }
            let info = Info::MiInfo(MiInfo { name, piece_length, pieces, length: *l as u64 });
            proof {
                assert(spec_info(v@) == Some(info@)) by {
                    assert(info@->Single_0 =~= spec_info(v@)->Some_0->Single_0);
                }
            }
            Ok(info)
        },
        (None, Some(BencodeValue::List(items))) => {
            let files = match files_list_of(items) {
                Ok(fs) => fs,
                Err(e) => {
                    return Err(e);
                },
            };
            let info = Info::MiMultiInfo(MiMultiInfo { name, piece_length, pieces, files });
            proof {
                assert(spec_info(v@) == Some(info@)) by {
                    assert(info@->Multi_0 =~= spec_info(v@)->Some_0->Multi_0);
                }
            }
            Ok(info)
        },
        _ => Err(Error::SchemaViolation),
    }
}

impl MetaInfo {
    /// Decodes a torrent descriptor from the bytes of its file. A buffer
    /// the bencode grammar refuses is malformed; a well-formed buffer
    /// that is not the descriptor dictionary this spec describes is a
    /// schema violation. Nothing partially decoded is ever handed back.
    pub fn from_bytes(bytes: &[u8]) -> (r: Result<MetaInfo, Error>)
        ensures
            match r {
                Ok(mi) => spec_metainfo(bytes@) == Some(mi@),
                Err(e) => spec_metainfo(bytes@) is None && (e == Error::MalformedBencode || e
                    == Error::SchemaViolation) && ((e == Error::MalformedBencode) <==> spec_parse(
                    bytes@,
                ) is None),
            },
    {
        let (top, _) = match decode(bytes) {
            Ok(x) => x,
            Err(e) => {
                return Err(e);
            },
        };
        let ps = match &top {
            BencodeValue::Dictionary(ps) => ps,
            _ => {
                return Err(Error::SchemaViolation);
            },
        };
        let kann: [u8; 8] = [97u8, 110u8, 110u8, 111u8, 117u8, 110u8, 99u8, 101u8];
        assert(kann@ =~= key_announce());
        let kinfo: [u8; 4] = [105u8, 110u8, 102u8, 111u8];
        assert(kinfo@ =~= info_key());
        let kal: [u8; 13] = [
            97u8, 110u8, 110u8, 111u8, 117u8, 110u8, 99u8, 101u8, 45u8, 108u8, 105u8, 115u8,
            116u8,
        ];
        assert(kal@ =~= key_announce_list());
        let kul: [u8; 8] = [117u8, 114u8, 108u8, 45u8, 108u8, 105u8, 115u8, 116u8];
        assert(kul@ =~= key_url_list());
        let kcb: [u8; 10] = [99u8, 114u8, 101u8, 97u8, 116u8, 101u8, 100u8, 32u8, 98u8, 121u8];
        assert(kcb@ =~= key_created_by());
        let kcm: [u8; 7] = [99u8, 111u8, 109u8, 109u8, 101u8, 110u8, 116u8];
        assert(kcm@ =~= key_comment());
        let kcd: [u8; 13] = [
            99u8, 114u8, 101u8, 97u8, 116u8, 105u8, 111u8, 110u8, 32u8, 100u8, 97u8, 116u8,
            101u8,
        ];
        assert(kcd@ =~= key_creation_date());
        let announce: Vec<u8> = match find_key(ps, kann.as_slice()) {
            Some(BencodeValue::ByteString(b)) => to_bytes(b),
            _ => {
                return Err(Error::SchemaViolation);
            },
        };
        let info: Info = match find_key(ps, kinfo.as_slice()) {
            Some(iv) => match info_from_bval(iv) {
                Ok(info) => info,
                Err(e) => {
                    return Err(e);
                },
            },
            None => {
                return Err(Error::SchemaViolation);
            },
        };
        let announce_list: Option<Vec<Vec<Vec<u8>>>> = match find_key(ps, kal.as_slice()) {
            None => None,
            Some(BencodeValue::List(items)) => match bytes_list2_of(items) {
                Ok(t) => Some(t),
                Err(e) => {
                    return Err(e);
                },
            },
            Some(_) => {
                return Err(Error::SchemaViolation);
            },
        };
        let url_list: Option<Vec<Vec<u8>>> = match find_key(ps, kul.as_slice()) {
            None => None,
            Some(BencodeValue::List(items)) => match bytes_list_of(items) {
                Ok(t) => Some(t),
                Err(e) => {
                    return Err(e);
                },
            },
            Some(_) => {
                return Err(Error::SchemaViolation);
            },
        };
        let created_by: Option<Vec<u8>> = match find_key(ps, kcb.as_slice()) {
            None => None,
            Some(BencodeValue::ByteString(b)) => Some(to_bytes(b)),
            Some(_) => {
                return Err(Error::SchemaViolation);
            },
        };
        let comment: Option<Vec<u8>> = match find_key(ps, kcm.as_slice()) {
            None => None,
            Some(BencodeValue::ByteString(b)) => Some(to_bytes(b)),
            Some(_) => {
                return Err(Error::SchemaViolation);
            },
        };
        let creation_date: Option<i64> = match find_key(ps, kcd.as_slice()) {
            None => None,
            Some(BencodeValue::Integer(i)) => Some(*i),
            Some(_) => {
                return Err(Error::SchemaViolation);
            },
        };
        let mi = MetaInfo { announce, info, announce_list, url_list, created_by, comment,
            creation_date };
        proof {
            assert(spec_metainfo(bytes@) == Some(mi@)) by {
                assert(mi@ =~~= spec_metainfo(bytes@)->Some_0);
            }
        }
        Ok(mi)
    }
}

} // verus!
