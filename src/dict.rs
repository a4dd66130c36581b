//! A whole dictionary: its descriptor, its index and its decoded entries.
use vstd::prelude::*;
use vstd::slice::slice_subrange;
use vstd::string::StringExecFns;
use crate::DictError;
use crate::fields::{block_fields, parse_dict_data_xml, prepend, views};
use crate::index::{Idx, IdxLayout, IdxView, idx_views, index_records, parse_index};
use crate::info::{Info, empty_info, info_of, parse_info};
use crate::text::{join_lines, push_char};

verus! {

/// A decoded entry: a headword and its body as XML.
#[derive(Debug)]
pub struct Dict {
    /// Position in the index, from 0.
    pub id: usize,
    /// The headword.
    pub index: String,
    pub offset: u64,
    pub size: u32,
    /// The rendered fields, joined by newlines.
    pub xml: String,
}

pub struct DictView {
    pub id: int,
    pub word: Seq<char>,
    pub offset: int,
    pub size: int,
    pub xml: Seq<char>,
}

impl View for Dict {
    type V = DictView;

    open spec fn view(&self) -> DictView {
        DictView {
            id: self.id as int,
            word: self.index@,
            offset: self.offset as int,
            size: self.size as int,
            xml: self.xml@,
        }
    }
}

impl Dict {
    pub fn new(id: usize, index: String, offset: u64, size: u32, xml: String) -> (r: Self)
        ensures
            r@ == (DictView { id: id as int, word: index@, offset: offset as int, size: size as int, xml: xml@ }),
    {
        Dict { id, index, offset, size, xml }
    }
}

/// The entry for the index entry `e`, whose data block lies in `data`.
pub open spec fn entry_of(e: IdxView, data: Seq<u8>, types: Seq<char>) -> Result<DictView, DictError> {
    if e.offset + e.size > data.len() {
        Err(DictError::Truncated)
    } else {
        match block_fields(data.subrange(e.offset, e.offset + e.size), types) {
            Ok(fs) => Ok(DictView { id: e.id, word: e.word, offset: e.offset, size: e.size, xml: join_lines(fs) }),
            Err(err) => Err(err),
        }
    }
}

/// The entries for the index entries `idx` from the `k`-th on, or the first error.
pub open spec fn entries_of(idx: Seq<IdxView>, data: Seq<u8>, types: Seq<char>, k: int) -> Result<Seq<DictView>, DictError>
    decreases idx.len() - k,
{
    if k < 0 || k >= idx.len() {
        Ok(seq![])
    } else {
        match entry_of(idx[k], data, types) {
            Ok(d) => prepend(seq![d], entries_of(idx, data, types, k + 1)),
            Err(err) => Err(err),
        }
    }
}

/// The views of the entries of `v`.
pub open spec fn dict_views(v: Seq<Dict>) -> Seq<DictView> {
    v.map_values(|d: Dict| d@)
}

/// How many index records a declared word count asks for.
pub open spec fn record_count(wordcount: int) -> int {
    if wordcount < 0 {
        0
    } else {
        wordcount
    }
}

/// The fragments `parts` joined by newlines.
pub fn join_fragments(parts: &Vec<String>) -> (r: String)
    ensures
        r@ == join_lines(views(parts@)),
{
    let ghost vs = views(parts@);
    let mut out = String::new();
    let mut k: usize = 0;
    assert(vs.take(0) =~= seq![]);
    while k < parts.len()
        invariant
            k <= parts@.len(),
            vs == views(parts@),
            out@ == join_lines(vs.take(k as int)),
        decreases parts@.len() - k,
    {
        if k > 0 {
            push_char(&mut out, '\n');
        }
        out.append(parts[k].as_str());
        assert(vs.take(k + 1).drop_last() =~= vs.take(k as int));
        k += 1;
    }
    assert(vs.take(k as int) =~= vs);
    out
}

/// A dictionary made of a descriptor, an index and a data blob.
#[derive(Debug)]
pub struct Dictionary {
    pub ifo_file: String,
    pub idx_file: String,
    pub dict_file: String,
    pub idx: Vec<Idx>,
    pub info: Info,
    pub data: Vec<Dict>,
}

impl Dictionary {
    /// A dictionary with the given file names, nothing loaded yet.
    pub fn new(ifo_file: String, idx_file: String, dict_file: String) -> (r: Self)
        ensures
            r.ifo_file@ == ifo_file@,
            r.idx_file@ == idx_file@,
            r.dict_file@ == dict_file@,
            r.idx@.len() == 0,
            r.info@ == empty_info(),
            r.data@.len() == 0,
    {
        Dictionary {
            ifo_file,
            idx_file,
            dict_file,
            idx: Vec::new(),
            info: Info::default(),
            data: Vec::new(),
        }
    }

    /// Reads the descriptor from its lines; see `parse_info`. On failure the
    /// dictionary is left as it was.
    pub fn load_info(&mut self, lines: &Vec<String>) -> (r: Result<(), DictError>)
        ensures
            match info_of(lines@.map_values(|l: String| l@)) {
                Ok(i) => r is Ok && final(self).info@ == i,
                Err(e) => r == Err::<(), DictError>(e) && final(self).info@ == old(self).info@,
            },
            final(self).idx@ == old(self).idx@,
            final(self).data@ == old(self).data@,
            final(self).ifo_file@ == old(self).ifo_file@,
            final(self).idx_file@ == old(self).idx_file@,
            final(self).dict_file@ == old(self).dict_file@,
    {
        match parse_info(lines) {
            Ok(info) => {
                self.info = info;
                Ok(())
            },
            Err(e) => Err(e),
        }
    }

    /// Reads the index from the bytes of the index file, as many records as the
    /// descriptor declares; see `parse_index`. On failure the dictionary is left
    /// as it was.
    pub fn load_idx(&mut self, buffer: &[u8], layout: IdxLayout) -> (r: Result<(), DictError>)
        ensures
            match index_records(buffer@, layout.spec_tail(), record_count(old(self).info@.wordcount), 0, 0, 0) {
                Ok(v) => r is Ok && idx_views(final(self).idx@) == v,
                Err(e) => r == Err::<(), DictError>(e) && final(self).idx@ == old(self).idx@,
            },
            final(self).info@ == old(self).info@,
            final(self).data@ == old(self).data@,
            final(self).ifo_file@ == old(self).ifo_file@,
            final(self).idx_file@ == old(self).idx_file@,
            final(self).dict_file@ == old(self).dict_file@,
    {
        let count: u32 = if self.info.wordcount < 0 {
            0
        } else {
            self.info.wordcount as u32
        };
        match parse_index(buffer, count, layout) {
            Ok(v) => {
                self.idx = v;
                Ok(())
            },
            Err(e) => Err(e),
        }
    }

    /// Decodes, for each index entry in order, its block of the data file's
    /// bytes `buffer` with the descriptor's type sequence. Fails with
    /// `Truncated` where a block reaches past the end of `buffer`, and with the
    /// first error of the field decoder; nothing is kept then.
    pub fn load_dict(&mut self, buffer: &[u8]) -> (r: Result<(), DictError>)
        ensures
            match entries_of(idx_views(old(self).idx@), buffer@, old(self).info@.sametypesequence, 0) {
                Ok(v) => r is Ok && dict_views(final(self).data@) == v,
                Err(e) => r == Err::<(), DictError>(e) && final(self).data@ == old(self).data@,
            },
            final(self).info@ == old(self).info@,
            final(self).idx@ == old(self).idx@,
            final(self).ifo_file@ == old(self).ifo_file@,
            final(self).idx_file@ == old(self).idx_file@,
            final(self).dict_file@ == old(self).dict_file@,
    {
        let ghost ix = idx_views(self.idx@);
        let ghost types = self.info@.sametypesequence;
        let total = self.idx.len();
        let mut result: Vec<Dict> = Vec::new();
        let mut k: usize = 0;
        assert(dict_views(result@) =~= seq![]);
        assert(entries_of(ix, buffer@, types, 0) == prepend(seq![], entries_of(ix, buffer@, types, 0)));
        while k < total
            invariant
                k <= total == self.idx@.len(),
                ix == idx_views(self.idx@),
                types == self.info@.sametypesequence,
                entries_of(ix, buffer@, types, 0) == prepend(dict_views(result@), entries_of(ix, buffer@, types, k as int)),
            decreases total - k,
        {
            let e = &self.idx[k];
            assert(ix[k as int] == e@);
            let offset = e.offset;
            let size = e.size as u64;
            if offset > buffer.len() as u64 || size > buffer.len() as u64 - offset {
                return Err(DictError::Truncated);
            }
            let start = offset as usize;
            let end = start + size as usize;
            let block = slice_subrange(buffer, start, end);
            let parts = match parse_dict_data_xml(block, self.info.sametypesequence.as_str()) {
                Ok(p) => p,
                Err(err) => {
                    return Err(err);
                },
            };
            let xml = join_fragments(&parts);
            let d = Dict::new(e.id, e.index.clone(), offset, e.size, xml);
            let ghost before = dict_views(result@);
            result.push(d);
            assert(dict_views(result@) =~= before + seq![d@]);
            proof {
                match entries_of(ix, buffer@, types, k + 1) {
                    Ok(rest) => {
                        assert(before + (seq![d@] + rest) =~= before + seq![d@] + rest);
                    },
                    Err(_) => {},
                }
            }
            k += 1;
        }
        assert(dict_views(result@) + seq![] =~= dict_views(result@));
        self.data = result;
        Ok(())
    }
}

} // verus!
