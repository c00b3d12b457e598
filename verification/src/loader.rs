//! Finds the tensors of a model: which file holds which tensor, and where in the file.

use vstd::prelude::*;
use vstd::string::StringExecFns;

use crate::bf16;
use crate::config::ModelConfig;
use crate::error::{ErrorView, FtError};
use crate::json;
use crate::json::Json;
use crate::order;
use crate::text;

verus! {

/// Where a tensor stands in its file, and how it is to be read.
#[derive(Debug)]
pub struct TensorMeta {
    pub dtype: String,
    pub shape: Vec<usize>,
    /// The first byte and the byte after the last, counted from the end of the header.
    pub data_offsets: (usize, usize),
}

/// The description of a tensor as a mathematical value.
#[verifier::ext_equal]
pub struct MetaView {
    pub dtype: Seq<char>,
    pub shape: Seq<usize>,
    pub data_offsets: (usize, usize),
}

impl View for TensorMeta {
    type V = MetaView;

    open spec fn view(&self) -> MetaView {
        MetaView { dtype: self.dtype@, shape: self.shape@, data_offsets: self.data_offsets }
    }
}

impl Clone for TensorMeta {
    fn clone(&self) -> (m: Self)
        ensures
            m@ == self@,
    {
        TensorMeta {
            dtype: self.dtype.clone(),
            shape: self.shape.clone(),
            data_offsets: (self.data_offsets.0, self.data_offsets.1),
        }
    }
}

/// What a part of a description was read as, or why it could not be read.
pub type Part<T> = Result<T, Seq<char>>;

/// What the type of a tensor is read as.
pub open spec fn dtype_in(j: Option<Json>) -> Option<Part<Seq<char>>> {
    match j {
        Some(j) => match j.text() {
            Some(s) => Some(Ok(s)),
            None => Some(Err(json::not_text(j))),
        },
        None => None,
    }
}

/// What the shape of a tensor is read as.
pub open spec fn shape_in(j: Option<Json>) -> Option<Part<Seq<usize>>> {
    match j {
        Some(j) => match j.sizes() {
            Some(s) => Some(Ok(s)),
            None => Some(Err(json::not_sizes(j))),
        },
        None => None,
    }
}

/// What the place of a tensor is read as.
pub open spec fn offsets_in(j: Option<Json>) -> Option<Part<(usize, usize)>> {
    match j {
        Some(j) => match j.pair() {
            Some(p) => Some(Ok(p)),
            None => Some(Err(json::not_pair(j))),
        },
        None => None,
    }
}

/// The sentence for a part that is not there.
pub open spec fn missing(name: Seq<char>) -> Seq<char> {
    "missing field `"@ + name + "`"@
}

/// The sentence for a list of the wrong length.
pub open spec fn wrong_length(n: nat, expected: Seq<char>) -> Seq<char> {
    "invalid length "@ + text::dec(n) + ", expected "@ + expected
}

/// The description of a tensor from its parts by name. The first part that cannot be read,
/// in the order of the names, is the error; else the first that is not there.
pub open spec fn meta_by_name(
    dtype: Option<Part<Seq<char>>>,
    shape: Option<Part<Seq<usize>>>,
    offsets: Option<Part<(usize, usize)>>,
) -> Part<MetaView> {
    match (offsets, dtype, shape) {
        (Some(Err(e)), _, _) => Err(e),
        (_, Some(Err(e)), _) => Err(e),
        (_, _, Some(Err(e))) => Err(e),
        (_, None, _) => Err(missing("dtype"@)),
        (_, _, None) => Err(missing("shape"@)),
        (None, _, _) => Err(missing("data_offsets"@)),
        (Some(Ok(data_offsets)), Some(Ok(dtype)), Some(Ok(shape))) => Ok(
            MetaView { dtype, shape, data_offsets },
        ),
    }
}

/// The description of a tensor from its parts in a list of `n` elements. The first part that
/// is not there or cannot be read is the error; else an element too many.
pub open spec fn meta_by_place(
    n: nat,
    dtype: Option<Part<Seq<char>>>,
    shape: Option<Part<Seq<usize>>>,
    offsets: Option<Part<(usize, usize)>>,
) -> Part<MetaView> {
    match (dtype, shape, offsets) {
        (None, _, _) => Err(wrong_length(0, "struct TensorMeta with 3 elements"@)),
        (Some(Err(e)), _, _) => Err(e),
        (_, None, _) => Err(wrong_length(1, "struct TensorMeta with 3 elements"@)),
        (_, Some(Err(e)), _) => Err(e),
        (_, _, None) => Err(wrong_length(2, "struct TensorMeta with 3 elements"@)),
        (_, _, Some(Err(e))) => Err(e),
        (Some(Ok(dtype)), Some(Ok(shape)), Some(Ok(data_offsets))) => if n > 3 {
            Err(wrong_length(n, "fewer elements in array"@))
        } else {
            Ok(MetaView { dtype, shape, data_offsets })
        },
    }
}

/// The description of a tensor: an object with the members `dtype`, `shape` and
/// `data_offsets`, or a list of the three.
pub open spec fn meta_of(j: Json) -> Part<MetaView> {
    match j {
        Json::Object(_) => meta_by_name(
            dtype_in(j.member("dtype"@)),
            shape_in(j.member("shape"@)),
            offsets_in(j.member("data_offsets"@)),
        ),
        Json::List(l) => meta_by_place(
            l.len(),
            dtype_in(j.element(0)),
            shape_in(j.element(1)),
            offsets_in(j.element(2)),
        ),
        _ => Err("invalid type: "@ + json::called(j) + ", expected struct TensorMeta"@),
    }
}

/// A text that was read, as a mathematical value.
pub open spec fn text_part(p: Option<Result<String, String>>) -> Option<Part<Seq<char>>> {
    match p {
        Some(Ok(s)) => Some(Ok(s@)),
        Some(Err(e)) => Some(Err(e@)),
        None => None,
    }
}

/// Sizes that were read, as a mathematical value.
pub open spec fn sizes_part(p: Option<Result<Vec<usize>, String>>) -> Option<Part<Seq<usize>>> {
    match p {
        Some(Ok(s)) => Some(Ok(s@)),
        Some(Err(e)) => Some(Err(e@)),
        None => None,
    }
}

/// Two sizes that were read, as a mathematical value.
pub open spec fn pair_part(p: Option<Result<(usize, usize), String>>) -> Option<
    Part<(usize, usize)>,
> {
    match p {
        Some(Ok(p)) => Some(Ok(p)),
        Some(Err(e)) => Some(Err(e@)),
        None => None,
    }
}

/// A description that was read, as a mathematical value.
pub open spec fn meta_part(r: Result<TensorMeta, String>) -> Part<MetaView> {
    match r {
        Ok(m) => Ok(m@),
        Err(e) => Err(e@),
    }
}

fn missing_part(name: &str) -> (s: String)
    ensures
        s@ == missing(name@),
{
    let mut s = "missing field `".to_owned();
    s.append(name);
    s.append("`");
    s
}

fn length_error(n: usize, expected: &str) -> (s: String)
    ensures
        s@ == wrong_length(n as nat, expected@),
{
    let mut s = "invalid length ".to_owned();
    text::push_dec(&mut s, n as u64);
    s.append(", expected ");
    s.append(expected);
    s
}

/// The description of a tensor from what the members of an object were read as.
pub fn meta_from_members(
    dtype: Option<Result<String, String>>,
    shape: Option<Result<Vec<usize>, String>>,
    offsets: Option<Result<(usize, usize), String>>,
) -> (r: Result<TensorMeta, String>)
    ensures
        meta_part(r) == meta_by_name(text_part(dtype), sizes_part(shape), pair_part(offsets)),
{
    match (offsets, dtype, shape) {
        (Some(Err(e)), _, _) => Err(e),
        (_, Some(Err(e)), _) => Err(e),
        (_, _, Some(Err(e))) => Err(e),
        (_, None, _) => Err(missing_part("dtype")),
        (_, _, None) => Err(missing_part("shape")),
        (None, _, _) => Err(missing_part("data_offsets")),
        (Some(Ok(data_offsets)), Some(Ok(dtype)), Some(Ok(shape))) => Ok(
            TensorMeta { dtype, shape, data_offsets },
        ),
    }
}

/// The description of a tensor from what the elements of a list of `n` were read as.
pub fn meta_from_elements(
    n: usize,
    dtype: Option<Result<String, String>>,
    shape: Option<Result<Vec<usize>, String>>,
    offsets: Option<Result<(usize, usize), String>>,
) -> (r: Result<TensorMeta, String>)
    ensures
        meta_part(r) == meta_by_place(
            n as nat,
            text_part(dtype),
            sizes_part(shape),
            pair_part(offsets),
        ),
{
    match (dtype, shape, offsets) {
        (None, _, _) => Err(length_error(0, "struct TensorMeta with 3 elements")),
        (Some(Err(e)), _, _) => Err(e),
        (_, None, _) => Err(length_error(1, "struct TensorMeta with 3 elements")),
        (_, Some(Err(e)), _) => Err(e),
        (_, _, None) => Err(length_error(2, "struct TensorMeta with 3 elements")),
        (_, _, Some(Err(e))) => Err(e),
        (Some(Ok(dtype)), Some(Ok(shape)), Some(Ok(data_offsets))) => {
            if n > 3 {
                Err(length_error(n, "fewer elements in array"))
            } else {
                Ok(TensorMeta { dtype, shape, data_offsets })
            }
        },
    }
}

/// What a parsed part holds, if it is there.
pub open spec fn maybe_tree(v: Option<&serde_json::Value>) -> Option<Json> {
    match v {
        Some(v) => Some(json::tree(*v)),
        None => None,
    }
}

fn read_dtype(v: Option<&serde_json::Value>) -> (r: Option<Result<String, String>>)
    ensures
        text_part(r) == dtype_in(maybe_tree(v)),
{
    match v {
        Some(v) => Some(json::read_text(v)),
        None => None,
    }
}

fn read_shape(v: Option<&serde_json::Value>) -> (r: Option<Result<Vec<usize>, String>>)
    ensures
        sizes_part(r) == shape_in(maybe_tree(v)),
{
    match v {
        Some(v) => Some(json::read_sizes(v)),
        None => None,
    }
}

fn read_offsets(v: Option<&serde_json::Value>) -> (r: Option<Result<(usize, usize), String>>)
    ensures
        pair_part(r) == offsets_in(maybe_tree(v)),
{
    match v {
        Some(v) => Some(json::read_pair(v)),
        None => None,
    }
}

/// The sentence for a description of the wrong kind, from that for a document that is not a
/// map.
fn wrong_kind(e: &str) -> (s: String)
    requires
        e@.len() >= "a map"@.len(),
    ensures
        s@ == e@.take(e@.len() - "a map"@.len()) + "struct TensorMeta"@,
{
    let cs = text::chars_of(e);
    proof {
        reveal_strlit("a map");
        assert(e@.take(e@.len() - 5) =~= e@.subrange(0, e@.len() - 5));
    }
    let mut s = text::piece(cs.as_slice(), 0, cs.len() - 5);
    s.append("struct TensorMeta");
    s
}

/// The description of a tensor from its JSON form.
pub fn decode_meta(v: &serde_json::Value) -> (r: Result<TensorMeta, String>)
    ensures
        meta_part(r) == meta_of(json::tree(*v)),
{
    match json::list_len(v) {
        Some(n) => meta_from_elements(
            n,
            read_dtype(json::element(v, 0)),
            read_shape(json::element(v, 1)),
            read_offsets(json::element(v, 2)),
        ),
        None => match json::read_object(v) {
            Ok(_) => meta_from_members(
                read_dtype(json::member(v, "dtype")),
                read_shape(json::member(v, "shape")),
                read_offsets(json::member(v, "data_offsets")),
            ),
            Err(e) => {
                proof {
                    let named = "invalid type: "@ + json::called(json::tree(*v));
                    reveal_strlit("a map");
                    reveal_strlit(", expected a map");
                    reveal_strlit("struct TensorMeta");
                    reveal_strlit(", expected struct TensorMeta");
                    assert(e@ == named + ", expected a map"@);
                    assert(e@.take(e@.len() - 5) + "struct TensorMeta"@ =~= named
                        + ", expected struct TensorMeta"@);
                }
                Err(wrong_kind(e.as_str()))
            },
        },
    }
}

/// The error for a tensor whose description cannot be read.
pub open spec fn bad_meta(name: Seq<char>, why: Seq<char>) -> ErrorView {
    ErrorView::Invalid(name + ": "@ + why)
}

/// The tensors that the members of a header describe, in their order; the member
/// `__metadata__` describes none. The first description that cannot be read is an error.
pub open spec fn index_of(
    members: Seq<(Seq<char>, Json)>,
) -> Result<Seq<(Seq<char>, MetaView)>, ErrorView>
    decreases members.len(),
{
    if members.len() == 0 {
        Ok(Seq::empty())
    } else {
        match index_of(members.drop_last()) {
            Err(e) => Err(e),
            Ok(before) => {
                let (name, v) = members.last();
                if name == "__metadata__"@ {
                    Ok(before)
                } else {
                    match meta_of(v) {
                        Ok(m) => Ok(before.push((name, m))),
                        Err(e) => Err(bad_meta(name, e)),
                    }
                }
            },
        }
    }
}

/// Tensors by name.
pub type Index = Vec<(String, TensorMeta)>;

/// Tensors by name, as mathematical values.
pub open spec fn index_view(index: Seq<(String, TensorMeta)>) -> Seq<(Seq<char>, MetaView)> {
    index.map_values(|e: (String, TensorMeta)| (e.0@, e.1@))
}

proof fn lemma_index_err(members: Seq<(Seq<char>, Json)>, k: int)
    requires
        0 <= k <= members.len(),
        index_of(members.take(k)) is Err,
    ensures
        index_of(members) == index_of(members.take(k)),
    decreases members.len(),
{
    if k == members.len() {
        assert(members.take(k) =~= members);
    } else {
        assert(members.drop_last().take(k) =~= members.take(k));
        lemma_index_err(members.drop_last(), k);
    }
}

/// The tensors that the members of a header describe.
pub fn tensor_index(members: &json::Members) -> (r: Result<Index, FtError>)
    ensures
        index_of(json::members_view(members@)) == (match r {
            Ok(i) => Ok(index_view(i@)),
            Err(e) => Err(e@),
        }),
{
    let mut index: Index = Vec::new();
    let ghost all = json::members_view(members@);
    proof {
        assert(index_view(index@) =~= Seq::empty());
    }
    for i in 0..members.len()
        invariant
            all == json::members_view(members@),
            index_of(all.take(i as int)) == Ok::<Seq<(Seq<char>, MetaView)>, ErrorView>(
                index_view(index@),
            ),
    {
        let name = &members[i].0;
        proof {
            assert(all.take(i + 1).drop_last() =~= all.take(i as int));
            assert(all[i as int] == (name@, json::tree(members@[i as int].1)));
        }
        if !text::equal(name.as_str(), "__metadata__") {
            match decode_meta(&members[i].1) {
                Ok(m) => {
                    let e: (String, TensorMeta) = (name.clone(), m);
                    proof {
                        assert(index_view(index@.push(e)) =~= index_view(index@).push(
                            (name@, m@),
                        ));
                    }
                    index.push(e);
                },
                Err(e) => {
                    let mut m = name.clone();
                    m.append(": ");
                    m.append(e.as_str());
                    proof {
                        lemma_index_err(all, i + 1);
                    }
                    return Err(FtError::Invalid(m));
                },
            }
        }
    }
    proof {
        assert(all.take(all.len() as int) =~= all);
    }
    Ok(index)
}

/// The number that bytes stand for, the least significant first.
pub open spec fn little_endian(bytes: Seq<u8>) -> nat
    decreases bytes.len(),
{
    if bytes.len() == 0 {
        0
    } else {
        bytes[0] as nat + 256 * little_endian(bytes.skip(1))
    }
}

fn read_u64(b: &[u8]) -> (n: u64)
    requires
        b@.len() >= 8,
    ensures
        n == little_endian(b@.take(8)),
{
    proof {
        let s = b@.take(8);
        reveal_with_fuel(little_endian, 9);
        assert(s.skip(1).skip(1) =~= s.skip(2));
        assert(s.skip(2).skip(1) =~= s.skip(3));
        assert(s.skip(3).skip(1) =~= s.skip(4));
        assert(s.skip(4).skip(1) =~= s.skip(5));
        assert(s.skip(5).skip(1) =~= s.skip(6));
        assert(s.skip(6).skip(1) =~= s.skip(7));
        assert(s.skip(7).skip(1) =~= Seq::empty());
    }
    b[0] as u64 + 256 * (b[1] as u64 + 256 * (b[2] as u64 + 256 * (b[3] as u64 + 256 * (b[4] as u64
        + 256 * (b[5] as u64 + 256 * (b[6] as u64 + 256 * (b[7] as u64)))))))
}

/// The byte after the header of a file, if the file is long enough to hold its length.
pub open spec fn header_end(bytes: Seq<u8>) -> int {
    8 + little_endian(bytes.take(8)) as u64 as usize
}

/// The tensors of a file: the length of a header in 8 bytes, the header in JSON, the
/// bytes of the tensors.
pub struct SafeTensorFile<'a> {
    data: &'a [u8],
    data_offset: usize,
    index: Index,
}

/// The tensors of a file as a mathematical value.
#[verifier::ext_equal]
pub struct FileView {
    pub data: Seq<u8>,
    pub data_offset: nat,
    pub index: Seq<(Seq<char>, MetaView)>,
}

/// What the tensors of a file are, given what its header was parsed to.
pub open spec fn file_of(
    path: Seq<char>,
    bytes: Seq<u8>,
    header: Result<Seq<(Seq<char>, Json)>, Seq<char>>,
) -> Result<FileView, ErrorView> {
    if bytes.len() < 8 {
        Err(ErrorView::Invalid(path + ": too small"@))
    } else if header_end(bytes) > bytes.len() {
        Err(ErrorView::Invalid(path + ": bad header length"@))
    } else {
        match header {
            Err(e) => Err(ErrorView::Invalid(path + ": bad header json: "@ + e)),
            Ok(members) => match index_of(members) {
                Err(e) => Err(e),
                Ok(index) => Ok(
                    FileView { data: bytes, data_offset: header_end(bytes) as nat, index },
                ),
            },
        }
    }
}

/// The description of the tensor of a name.
pub open spec fn lookup(index: Seq<(Seq<char>, MetaView)>, name: Seq<char>) -> Option<MetaView>
    decreases index.len(),
{
    if index.len() == 0 {
        None
    } else if index[0].0 == name {
        Some(index[0].1)
    } else {
        lookup(index.skip(1), name)
    }
}

impl FileView {
    /// Where the bytes of the tensor of a name begin and end in the file.
    pub open spec fn range(self, name: Seq<char>) -> Option<(int, int)> {
        match lookup(self.index, name) {
            Some(m) => Some(
                (self.data_offset + m.data_offsets.0, self.data_offset + m.data_offsets.1),
            ),
            None => None,
        }
    }

    /// The bytes of the tensor of a name.
    pub open spec fn bytes_of(self, name: Seq<char>) -> Seq<u8> {
        match self.range(name) {
            Some((s, e)) => self.data.subrange(s, e),
            None => Seq::empty(),
        }
    }

    /// Whether the bytes of the tensor of a name, if there is one, are in the file.
    pub open spec fn in_bounds(self, name: Seq<char>) -> bool {
        match self.range(name) {
            Some((s, e)) => s <= e <= self.data.len(),
            None => true,
        }
    }
}

impl<'a> View for SafeTensorFile<'a> {
    type V = FileView;

    closed spec fn view(&self) -> FileView {
        FileView {
            data: self.data@,
            data_offset: self.data_offset as nat,
            index: index_view(self.index@),
        }
    }
}

fn with_path(path: &str, what: &str) -> (e: FtError)
    ensures
        e@ == ErrorView::Invalid(path@ + what@),
{
    let mut m = path.to_owned();
    m.append(what);
    FtError::Invalid(m)
}

fn end_of_header(path: &str, bytes: &[u8]) -> (r: Result<usize, FtError>)
    requires
        bytes@.len() >= 8 ==> header_end(bytes@) <= usize::MAX,
    ensures
        match r {
            Ok(end) => 8 <= bytes@.len() && end == header_end(bytes@) && end <= bytes@.len(),
            Err(e) => if bytes@.len() < 8 {
                e@ == ErrorView::Invalid(path@ + ": too small"@)
            } else {
                &&& header_end(bytes@) > bytes@.len()
                &&& e@ == ErrorView::Invalid(path@ + ": bad header length"@)
            },
        },
{
    if bytes.len() < 8 {
        return Err(with_path(path, ": too small"));
    }
    let hdr_len: usize = #[verifier::truncate] (read_u64(bytes) as usize);
    let end: usize = 8 + hdr_len;
    if end > bytes.len() {
        return Err(with_path(path, ": bad header length"));
    }
    Ok(end)
}

impl<'a> SafeTensorFile<'a> {
    /// Reads the header of a file with the given bytes. `path` names the file in errors.
    pub fn open(path: &str, bytes: &'a [u8]) -> (r: Result<SafeTensorFile<'a>, FtError>)
        requires
            bytes@.len() >= 8 ==> header_end(bytes@) <= usize::MAX,
        ensures
            file_of(
                path@,
                bytes@,
                json::parsed_members(bytes@.subrange(8, header_end(bytes@))),
            ) == (match r {
                Ok(f) => Ok(f@),
                Err(e) => Err(e@),
            }),
            r matches Ok(f) ==> order::ascending(
                f@.index.map_values(|e: (Seq<char>, MetaView)| e.0),
            ),
    {
        let end: usize = match end_of_header(path, bytes) {
            Ok(end) => end,
            Err(e) => {
                return Err(e);
            },
        };
        let parsed = json::parse_members(vstd::slice::slice_subrange(bytes, 8, end));
        proof {
            if parsed is Ok {
                let members = json::members_view(parsed->Ok_0@);
                if index_of(members) is Ok {
                    law_index_ascending(members);
                }
            }
        }
        Self::with_header(path, bytes, parsed)
    }

    /// The tensors of a file with the given bytes, whose header was parsed to `header`.
    pub fn with_header(
        path: &str,
        bytes: &'a [u8],
        header: Result<json::Members, String>,
    ) -> (r: Result<SafeTensorFile<'a>, FtError>)
        requires
            bytes@.len() >= 8 ==> header_end(bytes@) <= usize::MAX,
        ensures
            file_of(
                path@,
                bytes@,
                match header {
                    Ok(m) => Ok(json::members_view(m@)),
                    Err(e) => Err(e@),
                },
            ) == (match r {
                Ok(f) => Ok(f@),
                Err(e) => Err(e@),
            }),
    {
        let end: usize = match end_of_header(path, bytes) {
            Ok(end) => end,
            Err(e) => {
                return Err(e);
            },
        };
        match header {
            Err(e) => {
                let mut m = path.to_owned();
                m.append(": bad header json: ");
                m.append(e.as_str());
                Err(FtError::Invalid(m))
            },
            Ok(members) => match tensor_index(&members) {
                Err(e) => Err(e),
                Ok(index) => Ok(SafeTensorFile { data: bytes, data_offset: end, index }),
            },
        }
    }

    /// The names of the tensors.
    pub fn names(&self) -> (r: Vec<String>)
        ensures
            text::views(r@) == self@.index.map_values(|e: (Seq<char>, MetaView)| e.0),
    {
        let mut r: Vec<String> = Vec::new();
        for i in 0..self.index.len()
            invariant
                r@.len() == i,
                forall|j: int| 0 <= j < i ==> (#[trigger] r@[j])@ == self@.index[j].0,
        {
            r.push(self.index[i].0.clone());
        }
        proof {
            assert(text::views(r@) =~= self@.index.map_values(|e: (Seq<char>, MetaView)| e.0));
        }
        r
    }

    /// The description of a tensor.
    pub fn meta(&self, name: &str) -> (r: Option<&TensorMeta>)
        ensures
            lookup(self@.index, name@) == (match r {
                Some(m) => Some(m@),
                None => None,
            }),
    {
        let ghost all = self@.index;
        proof {
            assert(all.skip(0) =~= all);
        }
        for i in 0..self.index.len()
            invariant
                all == self@.index,
                lookup(all, name@) == lookup(all.skip(i as int), name@),
        {
            proof {
                assert(all.skip(i as int).skip(1) =~= all.skip(i + 1));
                assert(all.skip(i as int)[0] == (self.index@[i as int].0@, self.index@[i as int].1@));
            }
            if text::equal(self.index[i].0.as_str(), name) {
                return Some(&self.index[i].1);
            }
        }
        None
    }

    /// Whether the bytes of a tensor, if there is one of that name, are in the file.
    pub fn in_bounds(&self, name: &str) -> (b: bool)
        ensures
            b == self@.in_bounds(name@),
    {
        match self.meta(name) {
            None => true,
            Some(m) => {
                let room: usize = self.data.len();
                self.data_offset <= room && m.data_offsets.0 <= m.data_offsets.1
                    && m.data_offsets.1 <= room - self.data_offset
            },
        }
    }

    /// The tensor of a name, without a copy of its bytes.
    pub fn tensor(&self, name: &str) -> (r: Option<TensorView<'_>>)
        requires
            self@.in_bounds(name@),
        ensures
            match r {
                Some(t) => {
                    &&& lookup(self@.index, name@) is Some
                    &&& t.dtype@ == lookup(self@.index, name@)->0.dtype
                    &&& t.shape@ == lookup(self@.index, name@)->0.shape
                    &&& t.data@ == self@.bytes_of(name@)
                    &&& t.data@ == self@.data.subrange(
                        self@.data_offset + lookup(self@.index, name@)->0.data_offsets.0,
                        self@.data_offset + lookup(self@.index, name@)->0.data_offsets.1,
                    )
                },
                None => lookup(self@.index, name@) is None,
            },
    {
        match self.meta(name) {
            None => None,
            Some(m) => {
                let (s, e) = (m.data_offsets.0, m.data_offsets.1);
                let room: usize = self.data.len();
                proof {
                    assert(self.data_offset + e <= room);
                }
                Some(
                    TensorView {
                        dtype: m.dtype.as_str(),
                        shape: m.shape.as_slice(),
                        data: vstd::slice::slice_subrange(
                            self.data,
                            self.data_offset + s,
                            self.data_offset + e,
                        ),
                    },
                )
            },
        }
    }
}

/// A tensor in the bytes of its file.
pub struct TensorView<'a> {
    pub dtype: &'a str,
    pub shape: &'a [usize],
    pub data: &'a [u8],
}

/// The number of elements of a shape.
pub open spec fn product(shape: Seq<usize>) -> nat
    decreases shape.len(),
{
    if shape.len() == 0 {
        1
    } else {
        product(shape.drop_last()) * shape.last() as nat
    }
}

/// The numbers of `n` bytes each that bytes stand for; bytes that are left over are
/// dropped.
pub open spec fn chunks(data: Seq<u8>, n: nat) -> Seq<nat> {
    Seq::new(data.len() / n, |i: int| little_endian(data.subrange(i * n, i * n + n)))
}

/// The 32-bit numbers that bytes stand for, the least significant byte first; bytes that
/// are left over are dropped.
pub fn words_of(data: &[u8]) -> (v: Vec<u32>)
    ensures
        v@.map_values(|x: u32| x as nat) == chunks(data@, 4),
        v@.len() == data@.len() / 4,
        forall|i: int|
            0 <= i < v@.len() ==> #[trigger] v@[i] == data@[4 * i] + 0x100 * data@[4 * i + 1]
                + 0x1_0000 * data@[4 * i + 2] + 0x100_0000 * data@[4 * i + 3],
{
    let n: usize = data.len() / 4;
    let mut v: Vec<u32> = Vec::new();
    for i in 0..n
        invariant
            n == data@.len() / 4,
            data@.len() <= usize::MAX,
            v@.len() == i,
            forall|j: int|
                0 <= j < i ==> #[trigger] v@[j] == little_endian(
                    data@.subrange(j * 4, j * 4 + 4),
                ),
            forall|j: int|
                0 <= j < i ==> #[trigger] v@[j] == data@[4 * j] + 0x100 * data@[4 * j + 1]
                    + 0x1_0000 * data@[4 * j + 2] + 0x100_0000 * data@[4 * j + 3],
    {
        let at: usize = i * 4;
        proof {
            let s = data@.subrange(at as int, at + 4);
            reveal_with_fuel(little_endian, 5);
            assert(s.skip(1).skip(1) =~= s.skip(2));
            assert(s.skip(2).skip(1) =~= s.skip(3));
            assert(s.skip(3).skip(1) =~= Seq::empty());
        }
        let x: u32 = data[at] as u32 + 256 * (data[at + 1] as u32 + 256 * (data[at + 2] as u32
            + 256 * (data[at + 3] as u32)));
        v.push(x);
    }
    proof {
        assert(v@.map_values(|x: u32| x as nat) =~= chunks(data@, 4));
    }
    v
}

impl<'a> TensorView<'a> {
    /// The bits of the elements of a tensor of 32-bit floating-point numbers.
    pub fn as_f32_bits(&self) -> (r: Result<Vec<u32>, FtError>)
        ensures
            match r {
                Ok(v) => self.dtype@ == "F32"@ && v@.map_values(|x: u32| x as nat) == chunks(
                    self.data@,
                    4,
                ),
                Err(e) => self.dtype@ != "F32"@ && e@ == ErrorView::Invalid(
                    "dtype "@ + self.dtype@ + " not supported as f32"@,
                ),
            },
    {
        if !text::equal(self.dtype, "F32") {
            let mut m = "dtype ".to_owned();
            m.append(self.dtype);
            m.append(" not supported as f32");
            return Err(FtError::Invalid(m));
        }
        Ok(words_of(self.data))
    }

    /// The bits of the elements of a tensor of 16-bit floating-point numbers.
    pub fn as_u16(&self) -> (r: Result<Vec<u16>, FtError>)
        ensures
            match r {
                Ok(v) => (self.dtype@ == "BF16"@ || self.dtype@ == "F16"@) && v@.map_values(
                    |x: u16| x as nat,
                ) == chunks(self.data@, 2),
                Err(e) => self.dtype@ != "BF16"@ && self.dtype@ != "F16"@ && e@
                    == ErrorView::Invalid("dtype "@ + self.dtype@ + " not u16"@),
            },
            r matches Ok(v) ==> v@.len() == self.data@.len() / 2 && forall|i: int|
                0 <= i < v@.len() ==> #[trigger] v@[i] == self.data@[2 * i] + 0x100 * self.data@[2
                    * i + 1],
    {
        if !text::equal(self.dtype, "BF16") && !text::equal(self.dtype, "F16") {
            let mut m = "dtype ".to_owned();
            m.append(self.dtype);
            m.append(" not u16");
            return Err(FtError::Invalid(m));
        }
        let n: usize = self.data.len() / 2;
        let mut v: Vec<u16> = Vec::new();
        for i in 0..n
            invariant
                n == self.data@.len() / 2,
                self.data@.len() <= usize::MAX,
                v@.len() == i,
                forall|j: int|
                    0 <= j < i ==> #[trigger] v@[j] == little_endian(
                        self.data@.subrange(j * 2, j * 2 + 2),
                    ),
                forall|j: int|
                    0 <= j < i ==> #[trigger] v@[j] == self.data@[2 * j] + 0x100 * self.data@[2 * j
                        + 1],
        {
            let at: usize = i * 2;
            proof {
                let s = self.data@.subrange(at as int, at + 2);
                reveal_with_fuel(little_endian, 3);
                assert(s.skip(1).skip(1) =~= Seq::empty());
            }
            let x: u16 = self.data[at] as u16 + 256 * (self.data[at + 1] as u16);
            v.push(x);
        }
        proof {
            assert(v@.map_values(|x: u16| x as nat) =~= chunks(self.data@, 2));
        }
        Ok(v)
    }

    /// The bits of the elements of a tensor of 16-bit floating-point numbers, made 32 bits
    /// wide.
    pub fn as_f32_from_bf16_bits(&self) -> (r: Result<Vec<u32>, FtError>)
        ensures
            match r {
                Ok(v) => (self.dtype@ == "BF16"@ || self.dtype@ == "F16"@) && v@.map_values(
                    |x: u32| x as nat,
                ) == chunks(self.data@, 2).map_values(|x: nat| x * 0x1_0000),
                Err(e) => self.dtype@ != "BF16"@ && self.dtype@ != "F16"@ && e@
                    == ErrorView::Invalid("dtype "@ + self.dtype@ + " not u16"@),
            },
    {
        match self.as_u16() {
            Ok(bits) => {
                let v = bf16::widen_all(bits.as_slice());
                proof {
                    let c = chunks(self.data@, 2);
                    assert(v@.len() == c.len());
                    assert forall|i: int| 0 <= i < c.len() implies #[trigger] v@[i] as nat == c[i]
                        * 0x1_0000 by {
                        assert(bits@.map_values(|x: u16| x as nat)[i] == bits@[i] as nat);
                    }
                    assert(v@.map_values(|x: u32| x as nat) =~= c.map_values(
                        |x: nat| x * 0x1_0000,
                    ));
                }
                Ok(v)
            },
            Err(e) => Err(e),
        }
    }

    /// Whether the elements can be rounded to 16 bits.
    pub open spec fn can_round(&self) -> bool {
        self.dtype@ == "F32"@ ==> forall|i: int|
            0 <= i < chunks(self.data@, 4).len() ==> bf16::can_narrow(
                #[trigger] chunks(self.data@, 4)[i] as u32,
            )
    }

    /// The bits of the elements as 16-bit floating-point numbers: those of a tensor of such
    /// numbers as they are, those of a tensor of 32-bit ones rounded.
    pub fn as_bf16(&self) -> (r: Result<Vec<u16>, FtError>)
        requires
            self.can_round(),
        ensures
            match r {
                Ok(v) => if self.dtype@ == "BF16"@ || self.dtype@ == "F16"@ {
                    v@.map_values(|x: u16| x as nat) == chunks(self.data@, 2)
                } else {
                    &&& self.dtype@ == "F32"@
                    &&& v@.len() == chunks(self.data@, 4).len()
                    &&& forall|i: int|
                        0 <= i < v@.len() ==> #[trigger] v@[i] == bf16::narrowed(
                            chunks(self.data@, 4)[i] as u32,
                        )
                },
                Err(e) => {
                    &&& self.dtype@ != "BF16"@ && self.dtype@ != "F16"@ && self.dtype@ != "F32"@
                    &&& e@ == ErrorView::Invalid(
                        "dtype "@ + self.dtype@ + " not supported as f32"@,
                    )
                },
            },
    {
        match self.as_u16() {
            Ok(v) => Ok(v),
            Err(_) => match self.as_f32_bits() {
                Ok(bits) => {
                    proof {
                        let c = chunks(self.data@, 4);
                        assert forall|i: int| 0 <= i < bits@.len() implies bf16::can_narrow(
                            #[trigger] bits@[i],
                        ) && bits@[i] == c[i] as u32 by {
                            assert(bits@.map_values(|x: u32| x as nat)[i] == bits@[i] as nat);
                            assert(bf16::can_narrow(c[i] as u32));
                        }
                    }
                    let v = bf16::narrow_all(bits.as_slice());
                    proof {
                        let c = chunks(self.data@, 4);
                        assert(v@.len() == c.len());
                        assert forall|i: int| 0 <= i < v@.len() implies #[trigger] v@[i]
                            == bf16::narrowed(c[i] as u32) by {
                            assert(bits@.map_values(|x: u32| x as nat)[i] == bits@[i] as nat);
                        }
                    }
                    Ok(v)
                },
                Err(e) => Err(e),
            },
        }
    }

    /// The number of elements.
    pub fn numel(&self) -> (n: usize)
        requires
            forall|i: int|
                0 <= i <= self.shape@.len() ==> product(#[trigger] self.shape@.take(i)) <= usize::MAX,
        ensures
            n == product(self.shape@),
    {
        let mut n: usize = 1;
        for i in 0..self.shape.len()
            invariant
                forall|k: int|
                    0 <= k <= self.shape@.len() ==> product(#[trigger] self.shape@.take(k))
                        <= usize::MAX,
                n == product(self.shape@.take(i as int)),
        {
            proof {
                assert(self.shape@.take(i + 1).drop_last() =~= self.shape@.take(i as int));
                assert(product(self.shape@.take(i + 1)) <= usize::MAX);
            }
            n = n * self.shape[i];
        }
        proof {
            assert(self.shape@.take(self.shape@.len() as int) =~= self.shape@);
        }
        n
    }
}

/// The path of `rest` below `root`; a path that begins with a slash stands for itself.
pub open spec fn path_join(root: Seq<char>, rest: Seq<char>) -> Seq<char> {
    if rest.len() > 0 && rest[0] == '/' {
        rest
    } else if root.len() == 0 || root.last() == '/' {
        root + rest
    } else {
        root.push('/') + rest
    }
}

/// The path of `rest` below `root`.
pub fn join_path(root: &str, rest: &str) -> (p: String)
    ensures
        p@ == path_join(root@, rest@),
{
    let r = text::chars_of(root);
    let t = text::chars_of(rest);
    if t.len() > 0 && t[0] == '/' {
        return rest.to_owned();
    }
    let mut p = root.to_owned();
    if r.len() > 0 && r[r.len() - 1] != '/' {
        p.push('/');
    }
    p.append(rest);
    p
}

/// The file that holds a tensor, given what the index of the model was parsed to: the
/// member of the tensor's name in the member `weight_map`.
pub open spec fn located(
    root: Seq<char>,
    index: Result<Json, Seq<char>>,
    name: Seq<char>,
) -> Result<Seq<char>, ErrorView> {
    match index {
        Err(e) => Err(ErrorView::Invalid("index json: "@ + e)),
        Ok(j) => {
            let shard = match j.member("weight_map"@) {
                Some(m) => match m.member(name) {
                    Some(s) => s.text(),
                    None => None,
                },
                None => None,
            };
            match shard {
                Some(s) => Ok(path_join(root, s)),
                None => Err(ErrorView::Invalid("tensor not in index: "@ + name)),
            }
        },
    }
}

/// The path of the file below `root` that holds a tensor, from the bytes of the index of
/// the model.
pub fn locate_tensor(root: &str, index: &[u8], name: &str) -> (r: Result<String, FtError>)
    ensures
        located(root@, json::parsed(index@), name@) == (match r {
            Ok(p) => Ok(p@),
            Err(e) => Err(e@),
        }),
{
    let parsed = json::parse(index);
    match parsed {
        Ok(v) => locate_in(root, Ok(&v), name),
        Err(e) => locate_in(root, Err(e), name),
    }
}

/// The path of the file below `root` that holds a tensor, from what the index of the model
/// was parsed to.
pub fn locate_in(
    root: &str,
    index: Result<&serde_json::Value, String>,
    name: &str,
) -> (r: Result<String, FtError>)
    ensures
        located(
            root@,
            match index {
                Ok(v) => Ok(json::tree(*v)),
                Err(e) => Err(e@),
            },
            name@,
        ) == (match r {
            Ok(p) => Ok(p@),
            Err(e) => Err(e@),
        }),
{
    let v = match index {
        Ok(v) => v,
        Err(e) => {
            let mut m = "index json: ".to_owned();
            m.append(e.as_str());
            return Err(FtError::Invalid(m));
        },
    };
    let shard: Option<String> = match json::member(v, "weight_map") {
        Some(w) => match json::member(w, name) {
            Some(s) => json::text_of(s),
            None => None,
        },
        None => None,
    };
    match shard {
        Some(s) => Ok(join_path(root, s.as_str())),
        None => {
            let mut m = "tensor not in index: ".to_owned();
            m.append(name);
            Err(FtError::Invalid(m))
        },
    }
}

/// The directory of a model.
pub struct ModelDir {
    pub root: String,
    pub config: ModelConfig,
    /// The files with tensors, in alphabetical order.
    pub safetensors: Vec<String>,
}

/// Whether a file name has the extension of files with tensors; a name that is nothing
/// but the extension has none.
pub open spec fn is_tensor_file(name: Seq<char>) -> bool {
    name.len() > 12 && name.skip(name.len() - 12) == ".safetensors"@
}

/// The names of files with tensors.
pub open spec fn tensor_files(names: Seq<Seq<char>>) -> Seq<Seq<char>>
    decreases names.len(),
{
    if names.len() == 0 {
        Seq::empty()
    } else if is_tensor_file(names.last()) {
        tensor_files(names.drop_last()).push(names.last())
    } else {
        tensor_files(names.drop_last())
    }
}

fn has_tensor_extension(name: &str) -> (b: bool)
    ensures
        b == is_tensor_file(name@),
{
    let cs = text::chars_of(name);
    if cs.len() <= 12 {
        return false;
    }
    let at: usize = cs.len() - 12;
    proof {
        assert(cs@.skip(at as int) =~= cs@.subrange(at as int, cs@.len() as int));
    }
    text::same(vstd::slice::slice_subrange(cs.as_slice(), at, cs.len()), ".safetensors")
}

/// The directory of a model with the given files: those with tensors, in alphabetical
/// order.
pub fn discover(root: &str, config: ModelConfig, files: Vec<String>) -> (d: ModelDir)
    ensures
        d.root@ == root@,
        d.config == config,
        exists|names: Seq<Seq<char>>| #[trigger]
            order::sorted(names) && names.to_multiset() == tensor_files(
                text::views(files@),
            ).to_multiset() && text::views(d.safetensors@) == names.map_values(
                |n: Seq<char>| path_join(root@, n),
            ),
{
    let mut names: Vec<String> = Vec::new();
    let ghost all = text::views(files@);
    for f in it: files
        invariant
            text::views(it.seq()) == all,
            text::views(names@) == tensor_files(all.take(it.index())),
    {
        proof {
            let i = it.index();
            assert(all.take(i + 1).drop_last() =~= all.take(i));
            assert(all.take(i + 1).last() == f@);
        }
        if has_tensor_extension(f.as_str()) {
            proof {
                assert(text::views(names@.push(f)) =~= text::views(names@).push(f@));
            }
            names.push(f);
        }
    }
    proof {
        assert(all.take(all.len() as int) =~= all);
    }
    let names = order::sort_names(names);
    let mut safetensors: Vec<String> = Vec::new();
    for i in 0..names.len()
        invariant
            safetensors@.len() == i,
            forall|j: int|
                0 <= j < i ==> (#[trigger] safetensors@[j])@ == path_join(root@, names@[j]@),
    {
        safetensors.push(join_path(root, names[i].as_str()));
    }
    proof {
        let n = text::views(names@);
        assert(text::views(safetensors@) =~= n.map_values(|n: Seq<char>| path_join(root@, n)));
        assert(order::sorted(n));
    }
    ModelDir { root: root.to_owned(), config, safetensors }
}

/// The names of the tensors of a file are in ascending order, each once, if those of its
/// header are.
pub proof fn law_index_ascending(members: Seq<(Seq<char>, Json)>)
    requires
        order::ascending(json::member_names(members)),
        index_of(members) is Ok,
    ensures
        order::ascending(index_of(members)->Ok_0.map_values(|e: (Seq<char>, MetaView)| e.0)),
{
    lemma_index_names(members);
}

proof fn lemma_index_names(members: Seq<(Seq<char>, Json)>)
    requires
        order::ascending(json::member_names(members)),
        index_of(members) is Ok,
    ensures
        order::ascending(index_of(members)->Ok_0.map_values(|e: (Seq<char>, MetaView)| e.0)),
        forall|i: int|
            0 <= i < index_of(members)->Ok_0.len() ==> json::member_names(members).contains(
                (#[trigger] index_of(members)->Ok_0[i]).0,
            ),
    decreases members.len(),
{
    if members.len() > 0 {
        let init = members.drop_last();
        let all = json::member_names(members);
        let names = json::member_names(init);
        assert forall|i: int, j: int| 0 <= i < j < names.len() implies order::precedes(
            #[trigger] names[i],
            #[trigger] names[j],
        ) by {
            assert(names[i] == all[i] && names[j] == all[j]);
        }
        lemma_index_names(init);
        let before = index_of(init)->Ok_0;
        let now = index_of(members)->Ok_0;
        let last = members.last().0;
        assert(all[members.len() - 1] == last);
        assert forall|i: int| 0 <= i < now.len() implies all.contains((#[trigger] now[i]).0) by {
            if i < before.len() {
                assert(names.contains(before[i].0));
                let k = names.index_of(before[i].0);
                assert(all[k] == before[i].0);
            }
        }
        let out = now.map_values(|e: (Seq<char>, MetaView)| e.0);
        let out0 = before.map_values(|e: (Seq<char>, MetaView)| e.0);
        assert forall|i: int, j: int| 0 <= i < j < out.len() implies order::precedes(
            #[trigger] out[i],
            #[trigger] out[j],
        ) by {
            assert(out[i] == out0[i]);
            if j < before.len() {
                assert(out[j] == out0[j]);
            } else {
                assert(names.contains(before[i].0));
                let k = names.index_of(before[i].0);
                assert(all[k] == before[i].0);
                assert(order::precedes(all[k], all[members.len() - 1]));
            }
        }
    }
}

/// A list of the given sizes.
pub open spec fn lists(j: Json, s: Seq<usize>) -> bool {
    &&& j is List
    &&& j->List_0.len() == s.len()
    &&& forall|i: int|
        0 <= i < s.len() ==> (#[trigger] j->List_0[i]) is Number && j->List_0[i]->Number_0 == Some(
            s[i] as u64,
        )
}

proof fn lemma_lists(j: Json, s: Seq<usize>)
    ensures
        j.sizes() == Some(s) <==> lists(j, s),
{
    if j.sizes() == Some(s) {
        let l = j->List_0;
        assert forall|i: int| 0 <= i < s.len() implies (#[trigger] j->List_0[i]) is Number
            && j->List_0[i]->Number_0 == Some(s[i] as u64) by {
            assert(l[i].size() is Some);
        }
    }
    if lists(j, s) {
        let l = j->List_0;
        assert forall|i: int| 0 <= i < l.len() implies (#[trigger] l[i]).size() is Some
            && l[i].size()->0 == s[i] by {
            assert(j->List_0[i] is Number);
        }
        assert(l.map_values(|j: Json| j.size()->0) =~= s);
    }
}

proof fn lemma_lists_two(j: Json, p: (usize, usize))
    ensures
        j.pair() == Some(p) <==> lists(j, seq![p.0, p.1]),
{
    lemma_lists(j, seq![p.0, p.1]);
    if j.pair() == Some(p) {
        assert(j.sizes()->0 =~= seq![p.0, p.1]);
    }
}

/// A description is read exactly from an object whose members `dtype`, `shape` and
/// `data_offsets` are a text, a list of sizes and a list of two sizes, or from a list of
/// just these three.
pub proof fn law_meta(j: Json, m: MetaView)
    ensures
        ({
            let ends = seq![m.data_offsets.0, m.data_offsets.1];
            meta_of(j) == Ok::<MetaView, Seq<char>>(m) <==> {
                ||| {
                    &&& j is Object
                    &&& j->Object_0.contains_pair("dtype"@, Json::Text(m.dtype))
                    &&& j->Object_0.contains_key("shape"@) && lists(
                        j->Object_0["shape"@],
                        m.shape,
                    )
                    &&& j->Object_0.contains_key("data_offsets"@) && lists(
                        j->Object_0["data_offsets"@],
                        ends,
                    )
                }
                ||| {
                    &&& j is List && j->List_0.len() == 3
                    &&& j->List_0[0] == Json::Text(m.dtype)
                    &&& lists(j->List_0[1], m.shape) && lists(j->List_0[2], ends)
                }
            }
        }),
{
    match j {
        Json::Object(o) => {
            lemma_lists(o["shape"@], m.shape);
            lemma_lists_two(o["data_offsets"@], m.data_offsets);
        },
        Json::List(l) => {
            lemma_lists(l[1], m.shape);
            lemma_lists_two(l[2], m.data_offsets);
        },
        _ => {},
    }
}

/// Of an object without one of its members, or with one that cannot be read, the error names
/// the first that cannot be read, in the order of the names, and else the first that is
/// missing. Of what is neither an object nor a list it says what it is.
pub proof fn law_meta_errors(o: Map<Seq<char>, Json>, other: Json)
    ensures
        other !is Object && other !is List ==> meta_of(other) == Err::<MetaView, Seq<char>>(
            "invalid type: "@ + json::called(other) + ", expected struct TensorMeta"@,
        ),
        ({
            let j = Json::Object(o);
            let err = |s: Seq<char>| meta_of(j) == Err::<MetaView, Seq<char>>(s);
            let at = o.contains_key("data_offsets"@);
            let ty = o.contains_key("dtype"@);
            let sh = o.contains_key("shape"@);
            let bad_at = at && o["data_offsets"@].pair() is None;
            let bad_ty = ty && o["dtype"@] !is Text;
            let bad_sh = sh && o["shape"@].sizes() is None;
            &&& bad_at ==> err(json::not_pair(o["data_offsets"@]))
            &&& !bad_at && bad_ty ==> err(json::not_text(o["dtype"@]))
            &&& !bad_at && !bad_ty && bad_sh ==> err(json::not_sizes(o["shape"@]))
            &&& !bad_at && !bad_ty && !bad_sh && !ty ==> err(
                "missing field `"@ + "dtype"@ + "`"@,
            )
            &&& !bad_at && !bad_sh && ty && !bad_ty && !sh ==> err(
                "missing field `"@ + "shape"@ + "`"@,
            )
            &&& !at && ty && !bad_ty && sh && !bad_sh ==> err(
                "missing field `"@ + "data_offsets"@ + "`"@,
            )
        }),
{
}

/// Of a list, the error names the first part that cannot be read, or how long the list is
/// where it ends before the third part or goes on behind it.
pub proof fn law_meta_list_errors(l: Seq<Json>)
    ensures
        ({
            let err = |s: Seq<char>| meta_of(Json::List(l)) == Err::<MetaView, Seq<char>>(s);
            let short = ", expected "@ + "struct TensorMeta with 3 elements"@;
            let ty = l.len() > 0 && l[0] is Text;
            let sh = l.len() > 1 && l[1].sizes() is Some;
            let at = l.len() > 2 && l[2].pair() is Some;
            &&& l.len() == 0 ==> err("invalid length "@ + text::dec(0) + short)
            &&& l.len() > 0 && !ty ==> err(json::not_text(l[0]))
            &&& l.len() == 1 && ty ==> err("invalid length "@ + text::dec(1) + short)
            &&& l.len() > 1 && ty && !sh ==> err(json::not_sizes(l[1]))
            &&& l.len() == 2 && ty && sh ==> err("invalid length "@ + text::dec(2) + short)
            &&& l.len() > 2 && ty && sh && !at ==> err(json::not_pair(l[2]))
            &&& l.len() > 3 && ty && sh && at ==> err(
                "invalid length "@ + text::dec(l.len()) + ", expected "@
                    + "fewer elements in array"@,
            )
        }),
{
    let expected = "struct TensorMeta with 3 elements"@;
    let tail = ", expected "@ + expected;
    assert(wrong_length(0, expected) =~= "invalid length "@ + text::dec(0) + tail);
    assert(wrong_length(1, expected) =~= "invalid length "@ + text::dec(1) + tail);
    assert(wrong_length(2, expected) =~= "invalid length "@ + text::dec(2) + tail);
}

/// The tensors of a header are its members but for `__metadata__`, in their order, each with
/// its description. The error is that of the first member whose description cannot be read,
/// behind its name.
pub proof fn law_index(members: Seq<(Seq<char>, Json)>)
    ensures
        match index_of(members) {
            Ok(index) => {
                &&& index == members.filter(
                    |e: (Seq<char>, Json)| e.0 != "__metadata__"@,
                ).map_values(|e: (Seq<char>, Json)| (e.0, meta_of(e.1)->Ok_0))
                &&& forall|i: int|
                    0 <= i < members.len() && (#[trigger] members[i]).0 != "__metadata__"@
                        ==> meta_of(members[i].1) is Ok
            },
            Err(e) => exists|k: int|
                0 <= k < members.len() && (#[trigger] members[k]).0 != "__metadata__"@ && meta_of(
                    members[k].1,
                ) is Err && e == ErrorView::Invalid(
                    members[k].0 + ": "@ + meta_of(members[k].1)->Err_0,
                ) && forall|i: int|
                    0 <= i < k && (#[trigger] members[i]).0 != "__metadata__"@ ==> meta_of(
                        members[i].1,
                    ) is Ok,
        },
    decreases members.len(),
{
    reveal(Seq::filter);
    let kept = |e: (Seq<char>, Json)| e.0 != "__metadata__"@;
    let described = |e: (Seq<char>, Json)| (e.0, meta_of(e.1)->Ok_0);
    if members.len() == 0 {
        assert(members.filter(kept).map_values(described) =~= Seq::empty());
    } else {
        let init = members.drop_last();
        law_index(init);
        if index_of(init) is Ok {
            let before = init.filter(kept);
            let last = members.last();
            assert forall|i: int|
                0 <= i < init.len() && (#[trigger] members[i]).0 != "__metadata__"@ implies meta_of(
                members[i].1,
            ) is Ok by {
                assert(init[i] == members[i]);
            }
            assert(before.push(last).map_values(described) =~= before.map_values(described).push(
                described(last),
            ));
            if index_of(members) is Ok {
                assert(index_of(members)->Ok_0 =~= members.filter(kept).map_values(described));
            } else {
                assert(members[members.len() - 1] == last);
            }
        } else {
            let k = choose|k: int|
                0 <= k < init.len() && (#[trigger] init[k]).0 != "__metadata__"@ && meta_of(
                    init[k].1,
                ) is Err && index_of(init)->Err_0 == ErrorView::Invalid(
                    init[k].0 + ": "@ + meta_of(init[k].1)->Err_0,
                ) && forall|i: int|
                    0 <= i < k && (#[trigger] init[i]).0 != "__metadata__"@ ==> meta_of(init[i].1)
                        is Ok;
            assert(members[k] == init[k]);
            assert forall|i: int|
                0 <= i < k && (#[trigger] members[i]).0 != "__metadata__"@ implies meta_of(
                members[i].1,
            ) is Ok by {
                assert(init[i] == members[i]);
            }
        }
    }
}

/// Numbers are read with the least significant byte first.
pub proof fn law_little_endian(b: Seq<u8>)
    ensures
        b.len() == 2 ==> little_endian(b) == b[0] + 0x100 * b[1],
        b.len() == 4 ==> little_endian(b) == b[0] + 0x100 * b[1] + 0x1_0000 * b[2] + 0x100_0000
            * b[3],
        b.len() == 8 ==> little_endian(b) == b[0] + 0x100 * b[1] + 0x1_0000 * b[2] + 0x100_0000
            * b[3] + 0x1_0000_0000 * b[4] + 0x100_0000_0000 * b[5] + 0x1_0000_0000_0000 * b[6]
            + 0x100_0000_0000_0000 * b[7],
{
    reveal_with_fuel(little_endian, 9);
    if b.len() >= 2 {
        assert(b.skip(1).skip(1) =~= b.skip(2));
    }
    if b.len() >= 4 {
        assert(b.skip(2).skip(1) =~= b.skip(3));
        assert(b.skip(3).skip(1) =~= b.skip(4));
    }
    if b.len() == 8 {
        assert(b.skip(4).skip(1) =~= b.skip(5));
        assert(b.skip(5).skip(1) =~= b.skip(6));
        assert(b.skip(6).skip(1) =~= b.skip(7));
    }
}

/// A file is read exactly if it holds the length of its header in its first 8 bytes, the
/// header behind them, and the header can be read; the bytes of the tensors follow. Each
/// error names the file and the first of these that fails.
pub proof fn law_file(
    path: Seq<char>,
    bytes: Seq<u8>,
    header: Result<Seq<(Seq<char>, Json)>, Seq<char>>,
)
    requires
        little_endian(bytes.take(8)) <= u64::MAX,
        little_endian(bytes.take(8)) <= usize::MAX,
    ensures
        ({
            let r = file_of(path, bytes, header);
            let end = 8 + little_endian(bytes.take(8));
            let err = |s: Seq<char>| r == Err::<FileView, ErrorView>(ErrorView::Invalid(path + s));
            &&& bytes.len() < 8 ==> err(": too small"@)
            &&& bytes.len() >= 8 && end > bytes.len() ==> err(": bad header length"@)
            &&& 8 <= end <= bytes.len() && header is Err ==> err(
                ": bad header json: "@ + header->Err_0,
            )
            &&& 8 <= end <= bytes.len() && header is Ok ==> {
                &&& index_of(header->Ok_0) matches Err(e) ==> r == Err::<FileView, ErrorView>(e)
                &&& index_of(header->Ok_0) matches Ok(index) ==> r == Ok::<FileView, ErrorView>(
                    FileView { data: bytes, data_offset: end, index },
                )
            }
        }),
{
    if header is Err {
        assert(path + ": bad header json: "@ + header->Err_0 =~= path + (": bad header json: "@
            + header->Err_0));
    }
}

/// The description of a name is the first one of that name, and there is none where no
/// tensor has the name.
pub proof fn law_lookup(index: Seq<(Seq<char>, MetaView)>, name: Seq<char>)
    ensures
        match lookup(index, name) {
            Some(m) => exists|i: int|
                0 <= i < index.len() && #[trigger] index[i] == (name, m) && forall|j: int|
                    0 <= j < i ==> (#[trigger] index[j]).0 != name,
            None => forall|i: int| 0 <= i < index.len() ==> (#[trigger] index[i]).0 != name,
        },
    decreases index.len(),
{
    if index.len() > 0 && index[0].0 != name {
        let rest = index.skip(1);
        law_lookup(rest, name);
        if lookup(rest, name) is Some {
            let m = lookup(rest, name)->0;
            let i = choose|i: int|
                0 <= i < rest.len() && #[trigger] rest[i] == (name, m) && forall|j: int|
                    0 <= j < i ==> (#[trigger] rest[j]).0 != name;
            assert(index[i + 1] == (name, m));
            assert forall|j: int| 0 <= j < i + 1 implies (#[trigger] index[j]).0 != name by {
                if j > 0 {
                    assert(rest[j - 1] == index[j]);
                }
            }
        } else {
            assert forall|j: int| 0 <= j < index.len() implies (#[trigger] index[j]).0 != name by {
                if j > 0 {
                    assert(rest[j - 1] == index[j]);
                }
            }
        }
    } else if index.len() > 0 {
        assert(index[0] == (name, index[0].1));
    }
}

/// The bytes of a tensor are in the file exactly if they do not end before they begin, nor
/// behind the end of the file, counted from the end of the header.
pub proof fn law_in_bounds(f: FileView, name: Seq<char>, m: MetaView)
    requires
        lookup(f.index, name) == Some(m),
    ensures
        f.in_bounds(name) <==> m.data_offsets.0 <= m.data_offsets.1 && f.data_offset
            + m.data_offsets.1 <= f.data.len(),
        f.bytes_of(name) == f.data.subrange(
            f.data_offset + m.data_offsets.0,
            f.data_offset + m.data_offsets.1,
        ),
{
}

/// No dimensions have one element, one has as many as its size, and those of two runs of
/// dimensions are multiplied.
pub proof fn law_product(a: Seq<usize>, b: Seq<usize>, n: usize)
    ensures
        product(seq![]) == 1,
        product(seq![n]) == n,
        product(a + b) == product(a) * product(b),
    decreases b.len(),
{
    reveal_with_fuel(product, 2);
    let none = Seq::<usize>::empty();
    assert(seq![n].drop_last() =~= none);
    assert(product(seq![n]) == product(none) * n as nat);
    assert(product(none) * n as nat == n) by (nonlinear_arith)
        requires
            product(none) == 1,
    ;
    if b.len() == 0 {
        assert(a + b =~= a);
        assert(product(a) * product(b) == product(a)) by (nonlinear_arith)
            requires
                product(b) == 1,
        ;
    } else {
        law_product(a, b.drop_last(), n);
        assert((a + b).drop_last() =~= a + b.drop_last());
        assert((product(a) * product(b.drop_last())) * b.last() as nat == product(a) * (product(
            b.drop_last(),
        ) * b.last() as nat)) by (nonlinear_arith);
    }
}

/// A path below a directory has one slash between the two, whether the directory ends with
/// one or not; a path that begins with a slash stands for itself.
pub proof fn law_path_join(root: Seq<char>, rest: Seq<char>)
    requires
        root.len() > 0 && root.last() != '/',
        rest.len() == 0 || rest[0] != '/',
    ensures
        path_join(root, rest) == root + "/"@ + rest,
        path_join(root.push('/'), rest) == root + "/"@ + rest,
        path_join(seq![], rest) == rest,
        path_join(root, "/"@ + rest) == "/"@ + rest,
{
    reveal_strlit("/");
    assert(root.push('/') =~= root + "/"@);
    assert(Seq::<char>::empty() + rest =~= rest);
}

/// A tensor is in the file that the index names for it in its member `weight_map`, below
/// the directory of the model.
pub proof fn law_located(root: Seq<char>, index: Json, name: Seq<char>)
    ensures
        ({
            let r = located(root, Ok(index), name);
            let named = |file: Seq<char>|
                exists|m: Map<Seq<char>, Json>, w: Map<Seq<char>, Json>|
                    index == Json::Object(m) && #[trigger] m.contains_pair(
                        "weight_map"@,
                        Json::Object(w),
                    ) && #[trigger] w.contains_pair(name, Json::Text(file));
            &&& forall|file: Seq<char>| #[trigger]
                named(file) ==> r == Ok::<Seq<char>, ErrorView>(path_join(root, file))
            &&& (forall|file: Seq<char>| !#[trigger] named(file)) ==> r == Err::<
                Seq<char>,
                ErrorView,
            >(ErrorView::Invalid("tensor not in index: "@ + name))
        }),
        forall|e: Seq<char>| #[trigger]
            located(root, Err(e), name) == Err::<Seq<char>, ErrorView>(
                ErrorView::Invalid("index json: "@ + e),
            ),
{
    if located(root, Ok(index), name) is Ok {
        let m = index->Object_0;
        let w = m["weight_map"@]->Object_0;
        let file = w[name]->Text_0;
        let named = |file: Seq<char>|
            exists|m: Map<Seq<char>, Json>, w: Map<Seq<char>, Json>|
                index == Json::Object(m) && #[trigger] m.contains_pair(
                    "weight_map"@,
                    Json::Object(w),
                ) && #[trigger] w.contains_pair(name, Json::Text(file));
        assert(m.contains_pair("weight_map"@, Json::Object(w)));
        assert(w.contains_pair(name, Json::Text(file)));
        assert(named(file));
    }
}

/// The files with tensors are those whose name is something followed by `.safetensors`, in
/// the order in which they were given.
pub proof fn law_tensor_files(names: Seq<Seq<char>>, name: Seq<char>)
    ensures
        tensor_files(names) == names.filter(|n: Seq<char>| is_tensor_file(n)),
        is_tensor_file(name) <==> exists|stem: Seq<char>|
            stem.len() > 0 && name == #[trigger] (stem + ".safetensors"@),
    decreases names.len(),
{
    reveal(Seq::filter);
    reveal_strlit(".safetensors");
    if names.len() == 0 {
        assert(tensor_files(names) =~= names.filter(|n: Seq<char>| is_tensor_file(n)));
    } else {
        law_tensor_files(names.drop_last(), name);
    }
    if is_tensor_file(name) {
        let stem = name.take(name.len() - 12);
        assert(name =~= stem + ".safetensors"@);
    }
    if exists|stem: Seq<char>| stem.len() > 0 && name == #[trigger] (stem + ".safetensors"@) {
        let stem = choose|stem: Seq<char>|
            stem.len() > 0 && name == #[trigger] (stem + ".safetensors"@);
        assert(name.skip(name.len() - 12) =~= ".safetensors"@);
    }
}

/// Bytes are read in numbers of `n` bytes each, one behind the other, as far as they go.
pub proof fn law_chunks(data: Seq<u8>, n: nat, i: int)
    requires
        n > 0,
        0 <= i < data.len() / n,
    ensures
        chunks(data, n).len() == data.len() / n,
        chunks(data, n)[i] == little_endian(data.skip(i * n).take(n as int)),
{
    let k = (data.len() / n) as int;
    vstd::arithmetic::div_mod::lemma_fundamental_div_mod(data.len() as int, n as int);
    assert(0 <= i * n && i * n + n <= data.len()) by (nonlinear_arith)
        requires
            0 <= i < k,
            data.len() == n * k + data.len() % n,
            0 <= data.len() % n,
            n > 0,
    ;
    assert(data.skip(i * n).take(n as int) =~= data.subrange(i * n, i * n + n));
}

} // verus!
