//! The word index: headwords with the place of their data in the data blob.
use vstd::prelude::*;
use vstd::utf8::{valid_utf8, decode_utf8};
use crate::DictError;
use crate::fields::{be16, find_nul, lemma_nul_end, nul_end, prepend, read_be16, utf8_text};

verus! {

/// How the bytes after a headword's terminator are laid out. Either way the
/// data size is the big-endian number in the last two of them.
#[derive(Debug, Clone, Copy, PartialEq, Eq, Structural)]
pub enum IdxLayout {
    /// A two-byte size.
    Compact,
    /// A four-byte offset and a four-byte size, as StarDict writes them.
    Wide,
}

impl IdxLayout {
    pub open spec fn spec_tail(self) -> int {
        match self {
            IdxLayout::Compact => 2,
            IdxLayout::Wide => 8,
        }
    }

    /// How many bytes follow a headword's terminator.
    pub fn tail(&self) -> (r: usize)
        ensures
            r as int == self.spec_tail(),
    {
        match self {
            IdxLayout::Compact => 2,
            IdxLayout::Wide => 8,
        }
    }
}

/// One headword of the index and where its data lies.
#[derive(Debug)]
pub struct Idx {
    /// Position in the index, from 0.
    pub id: usize,
    /// The headword.
    pub index: String,
    /// Where the data block starts: the sum of the sizes before it.
    pub offset: u64,
    /// The length of the data block.
    pub size: u32,
}

/// What an index entry holds.
pub struct IdxView {
    pub id: int,
    pub word: Seq<char>,
    pub offset: int,
    pub size: int,
}

impl View for Idx {
    type V = IdxView;

    open spec fn view(&self) -> IdxView {
        IdxView { id: self.id as int, word: self.index@, offset: self.offset as int, size: self.size as int }
    }
}

impl Idx {
    pub fn new(id: usize, index: String, offset: u64, size: u32) -> (r: Self)
        ensures
            r.id == id,
            r.index@ == index@,
            r.offset == offset,
            r.size == size,
    {
        Idx { id, index, offset, size }
    }
}

/// The entries from the `id`-th to the `n`-th (exclusive) of an index whose
/// records start at `pos` and whose data starts at `offset`. Each record is a
/// headword, a zero byte and `tail` bytes that end with the data size.
pub open spec fn index_records(b: Seq<u8>, tail: int, n: int, id: int, pos: int, offset: int) -> Result<
    Seq<IdxView>,
    DictError,
>
    decreases n - id,
{
    if id >= n || pos < 0 || pos > b.len() {
        Ok(seq![])
    } else {
        let e = nul_end(b, pos);
        if e >= b.len() || e + 1 + tail > b.len() {
            Err(DictError::Truncated)
        } else if !valid_utf8(b.subrange(pos, e)) {
            Err(DictError::Format)
        } else {
            let size = be16(b, e + 1 + tail - 2);
            let entry = IdxView { id, word: decode_utf8(b.subrange(pos, e)), offset, size };
            prepend(seq![entry], index_records(b, tail, n, id + 1, e + 1 + tail, offset + size))
        }
    }
}

/// The views of the entries of `v`.
pub open spec fn idx_views(v: Seq<Idx>) -> Seq<IdxView> {
    v.map_values(|e: Idx| e@)
}

/// Reads `count` records from the index file's bytes `buffer`. The entries
/// come in file order with ids from 0; each offset is the sum of the sizes
/// before it. Fails with `Truncated` where the bytes end before `count`
/// records, and with `Format` where a headword is not UTF-8.
pub fn parse_index(buffer: &[u8], count: u32, layout: IdxLayout) -> (r: Result<Vec<Idx>, DictError>)
    ensures
        match (r, index_records(buffer@, layout.spec_tail(), count as int, 0, 0, 0)) {
            (Ok(x), Ok(y)) => idx_views(x@) == y,
            (Err(x), Err(y)) => x == y,
            _ => false,
        },
        r matches Ok(v) ==> {
            &&& v@.len() == count
            &&& v@.len() > 0 ==> v@[0].offset == 0
            &&& forall|i: int| 0 <= i < v@.len() ==> v@[i].id == i
            &&& forall|i: int|
                0 < i < v@.len() ==> #[trigger] v@[i].offset == v@[i - 1].offset + v@[i - 1].size
        },
{
    let tail = layout.tail();
    let ghost t = layout.spec_tail();
    let mut res: Vec<Idx> = Vec::new();
    let mut pos: usize = 0;
    let mut offset: u64 = 0;
    let mut id: u32 = 0;
    assert(idx_views(res@) =~= seq![]);
    assert(index_records(buffer@, t, count as int, 0, 0, 0) == prepend(seq![], index_records(buffer@, t, count as int, 0, 0, 0)));
    while id < count
        invariant
            t == tail,
            t == layout.spec_tail(),
            t == 2 || t == 8,
            id <= count,
            pos <= buffer@.len(),
            res@.len() == id,
            offset <= 65535 * id,
            index_records(buffer@, t, count as int, 0, 0, 0) == prepend(idx_views(res@), index_records(buffer@, t, count as int, id as int, pos as int, offset as int)),
            res@.len() > 0 ==> res@[0].offset == 0,
            res@.len() > 0 ==> offset == res@.last().offset + res@.last().size,
            res@.len() == 0 ==> offset == 0,
            forall|i: int| 0 <= i < res@.len() ==> res@[i].id == i,
            forall|i: int|
                0 < i < res@.len() ==> #[trigger] res@[i].offset == res@[i - 1].offset + res@[i - 1].size,
        decreases count - id,
    {
        let e = find_nul(buffer, pos);
        proof {
            lemma_nul_end(buffer@, pos as int);
        }
        if e >= buffer.len() || buffer.len() - e - 1 < tail {
            return Err(DictError::Truncated);
        }
        let word = match utf8_text(buffer, pos, e) {
            Some(w) => w,
            None => {
                return Err(DictError::Format);
            },
        };
        let next = e + 1 + tail;
        let size = read_be16(buffer, next - 2);
        let entry = Idx::new(id as usize, word, offset, size as u32);
        let ghost before = idx_views(res@);
        res.push(entry);
        assert(idx_views(res@) =~= before + seq![entry@]);
        proof {
            match index_records(buffer@, t, count as int, id + 1, next as int, offset + size) {
                Ok(rest) => {
                    assert(before + (seq![entry@] + rest) =~= before + seq![entry@] + rest);
                },
                Err(_) => {},
            }
        }
        offset = offset + size as u64;
        pos = next;
        id += 1;
    }
    assert(idx_views(res@) + seq![] =~= idx_views(res@));
    Ok(res)
}

/// Where the `m` records that start at `pos` end.
pub open spec fn records_end(b: Seq<u8>, tail: int, m: int, pos: int) -> int
    decreases m,
{
    if m <= 0 {
        pos
    } else {
        records_end(b, tail, m - 1, nul_end(b, pos) + 1 + tail)
    }
}

proof fn lemma_offsets_from(b: Seq<u8>, tail: int, n: int, id: int, pos: int, offset: int)
    requires
        index_records(b, tail, n, id, pos, offset) is Ok,
    ensures
        ({
            let v = index_records(b, tail, n, id, pos, offset)->Ok_0;
            &&& v.len() > 0 ==> v[0].offset == offset && v[0].id == id
            &&& forall|i: int| 0 < i < v.len() ==> #[trigger] v[i].offset == v[i - 1].offset + v[i - 1].size
        }),
    decreases n - id,
{
    if id < n && 0 <= pos <= b.len() {
        let e = nul_end(b, pos);
        let size = be16(b, e + 1 + tail - 2);
        let next = e + 1 + tail;
        lemma_offsets_from(b, tail, n, id + 1, next, offset + size);
        let v = index_records(b, tail, n, id, pos, offset)->Ok_0;
        let rest = index_records(b, tail, n, id + 1, next, offset + size)->Ok_0;
        assert forall|i: int| 0 < i < v.len() implies #[trigger] v[i].offset == v[i - 1].offset + v[i - 1].size by {
            assert(v[i] == rest[i - 1]);
            if i > 1 {
                assert(v[i - 1] == rest[i - 2]);
            }
        }
    }
}

/// The entries of an index come with ids from 0, and their offsets are the
/// running sums of the sizes: the first is 0 and each next one adds the size
/// of the entry before it.
pub proof fn lemma_offsets_are_prefix_sums(b: Seq<u8>, layout: IdxLayout, n: int)
    requires
        index_records(b, layout.spec_tail(), n, 0, 0, 0) is Ok,
    ensures
        ({
            let v = index_records(b, layout.spec_tail(), n, 0, 0, 0)->Ok_0;
            &&& v.len() > 0 ==> v[0].offset == 0
            &&& forall|i: int| 0 < i < v.len() ==> #[trigger] v[i].offset == v[i - 1].offset + v[i - 1].size
        }),
{
    lemma_offsets_from(b, layout.spec_tail(), n, 0, 0, 0);
}

proof fn lemma_short_from(b: Seq<u8>, tail: int, n: int, k: int, id: int, pos: int, offset: int)
    requires
        tail >= 0,
        id <= k < n,
        0 <= pos <= b.len(),
        index_records(b, tail, k, id, pos, offset) is Ok,
        records_end(b, tail, k - id, pos) == b.len(),
    ensures
        index_records(b, tail, n, id, pos, offset) == Err::<Seq<IdxView>, DictError>(DictError::Truncated),
    decreases k - id,
{
    lemma_nul_end(b, pos);
    if id < k {
        let e = nul_end(b, pos);
        let size = be16(b, e + 1 + tail - 2);
        lemma_short_from(b, tail, n, k, id + 1, e + 1 + tail, offset + size);
    }
}

/// An index whose bytes hold `k` complete records and nothing after them fails
/// with `Truncated` when more than `k` records are asked for.
pub proof fn lemma_short_index(b: Seq<u8>, layout: IdxLayout, k: int, n: int)
    requires
        0 <= k < n,
        index_records(b, layout.spec_tail(), k, 0, 0, 0) is Ok,
        records_end(b, layout.spec_tail(), k, 0) == b.len(),
    ensures
        index_records(b, layout.spec_tail(), n, 0, 0, 0) == Err::<Seq<IdxView>, DictError>(DictError::Truncated),
{
    lemma_short_from(b, layout.spec_tail(), n, k, 0, 0, 0);
}

} // verus!
