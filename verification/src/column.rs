//! A compressed string column with random access: every string is encoded
//! with one shared static dictionary trained on the whole corpus, and each
//! entry decodes independently from its slice of the shared code buffer.

use vstd::prelude::*;
use vstd::utf8::{decode_utf8, encode_utf8, valid_utf8};

use crate::text::string_from_utf8;

verus! {

/// The bytes that dictionary decompression yields for `codes` under the
/// dictionary `(syms, lens)`; names the result of `fsst::Decompressor::decompress`.
pub uninterp spec fn fsst_decode(syms: Seq<u64>, lens: Seq<u8>, codes: Seq<u8>) -> Seq<u8>;

/// A well-formed dictionary: up to 255 symbols of one to eight bytes each,
/// one length per symbol.
pub open spec fn dict_wf(syms: Seq<u64>, lens: Seq<u8>) -> bool {
    &&& syms.len() == lens.len()
    &&& syms.len() <= 255
    &&& forall|i: int| 0 <= i < lens.len() ==> 1 <= #[trigger] lens[i] <= 8
}

/// A complete code stream: every escape byte (255) is followed by the byte
/// it escapes, so decompression never runs off the end.
pub open spec fn codes_ok(codes: Seq<u8>) -> bool
    decreases codes.len(),
{
    if codes.len() == 0 {
        true
    } else if codes[0] == 255 {
        codes.len() >= 2 && codes_ok(codes.skip(2))
    } else {
        codes_ok(codes.skip(1))
    }
}

#[verifier::external_type_specification]
#[verifier::external_body]
pub struct ExCompressor(fsst::Compressor);

/// A trained dictionary compressor paired with its exported symbol table.
///
/// The fields are private and only [`FsstTrained::train`] constructs a value,
/// so `syms`/`lens` are always exactly the symbol table of `comp`; the
/// contract of [`FsstTrained::compress`] relies on that.
pub struct FsstTrained {
    comp: fsst::Compressor,
    syms: Vec<u64>,
    lens: Vec<u8>,
}

impl FsstTrained {
    pub closed spec fn spec_syms(self) -> Seq<u64> {
        self.syms@
    }

    pub closed spec fn spec_lens(self) -> Seq<u8> {
        self.lens@
    }

    /// Relies on fsst::Compressor::train, symbol_table and symbol_lengths:
    /// training yields at most 255 symbols of one to eight bytes each.
    #[verifier::external_body]
    pub fn train(samples: &Vec<Vec<u8>>) -> (t: Self)
        ensures
            dict_wf(t.spec_syms(), t.spec_lens()),
    {
        let refs: Vec<&[u8]> = samples.iter().map(|s| s.as_slice()).collect();
        let comp = fsst::Compressor::train(&refs);
        let syms: Vec<u64> = comp.symbol_table().iter().map(|s| s.to_u64()).collect();
        let lens: Vec<u8> = comp.symbol_lengths().to_vec();
        FsstTrained { comp, syms, lens }
    }

    /// Relies on fsst::Compressor::compress together with
    /// fsst::Decompressor::decompress: decompressing under the same symbol
    /// table restores the input exactly, and every escape byte in the output
    /// is followed by the byte it escapes.
    #[verifier::external_body]
    pub fn compress(&self, s: &Vec<u8>) -> (r: Vec<u8>)
        ensures
            fsst_decode(self.spec_syms(), self.spec_lens(), r@) == s@,
            codes_ok(r@),
            s@.len() == 0 ==> r@.len() == 0,
    {
        self.comp.compress(s.as_slice())
    }
}

/// Relies on fsst::Decompressor::decompress: a pure function of the symbol
/// table and the code bytes.  The dictionary is padded to the fixed 255-entry
/// table shape that the decompressor expects.
#[verifier::external_body]
fn fsst_decompress(syms: &Vec<u64>, lens: &Vec<u8>, codes: &[u8]) -> (r: Vec<u8>)
    requires
        dict_wf(syms@, lens@),
        codes_ok(codes@),
    ensures
        r@ == fsst_decode(syms@, lens@, codes@),
{
    let mut table = [fsst::Symbol::ZERO; 255];
    let mut lengths = [0u8; 255];
    for i in 0..syms.len() {
        table[i] = fsst::Symbol::from_slice(&syms[i].to_le_bytes());
        lengths[i] = lens[i];
    }
    fsst::Decompressor::new(&table, &lengths).decompress(codes)
}

/// Check that the code bytes of `data` between `start` and `end` form a
/// complete stream: every escape byte is followed by the byte it escapes.
fn check_codes(data: &Vec<u8>, start: usize, end: usize) -> (r: bool)
    requires
        start <= end <= data@.len(),
    ensures
        r == codes_ok(data@.subrange(start as int, end as int)),
{
    let mut i: usize = start;
    while i < end
        invariant
            start <= i <= end <= data@.len(),
            codes_ok(data@.subrange(start as int, end as int)) == codes_ok(
                data@.subrange(i as int, end as int),
            ),
        decreases end - i,
    {
        proof {
            let cur = data@.subrange(i as int, end as int);
            assert(cur[0] == data@[i as int]);
            assert(cur.skip(1) =~= data@.subrange(i as int + 1, end as int));
            if i + 2 <= end {
                assert(cur.skip(2) =~= data@.subrange(i as int + 2, end as int));
            }
        }
        if data[i] == 255 {
            if i + 1 >= end {
                return false;
            }
            i = i + 2;
        } else {
            i = i + 1;
        }
    }
    proof {
        assert(data@.subrange(i as int, end as int).len() == 0);
    }
    true
}

/// The slice of `data` belonging to entry `j` of a column whose entries
/// start at `offsets`; the last entry runs to the end of `data`.
pub open spec fn chunk(data: Seq<u8>, offsets: Seq<usize>, j: int) -> Seq<u8> {
    let end = if j + 1 < offsets.len() {
        offsets[j + 1] as int
    } else {
        data.len() as int
    };
    data.subrange(offsets[j] as int, end)
}

/// A dictionary-compressed vector of UTF-8 strings with random access.
#[derive(Debug)]
pub struct FsstStrVec {
    dict_syms: Vec<u64>,
    dict_lens: Vec<u8>,
    offsets: Vec<usize>,
    data: Vec<u8>,
}

impl FsstStrVec {
    /// The code slice of item `i`: from its offset to the next offset, or to
    /// the end of the buffer for the last item.
    pub closed spec fn item_codes(self, i: int) -> Seq<u8> {
        chunk(self.data@, self.offsets@, i)
    }

    /// The decompressed bytes of item `i`.
    pub closed spec fn str_at(self, i: int) -> Seq<u8> {
        fsst_decode(self.dict_syms@, self.dict_lens@, self.item_codes(i))
    }

    /// The number of stored strings.
    pub closed spec fn spec_len(self) -> nat {
        self.offsets@.len()
    }

    #[verifier::type_invariant]
    pub closed spec fn wf(self) -> bool {
        &&& dict_wf(self.dict_syms@, self.dict_lens@)
        &&& forall|i: int|
            0 <= i < self.offsets@.len() ==> #[trigger] self.offsets@[i] <= self.data@.len()
        &&& forall|i: int|
            0 <= i < self.offsets@.len() - 1 ==> #[trigger] self.offsets@[i]
                <= self.offsets@[i + 1]
        &&& forall|i: int| 0 <= i < self.offsets@.len() ==> codes_ok(#[trigger] self.item_codes(i))
    }

    /// Train a dictionary on `strings` and build the compressed column.
    pub fn from_strings(strings: &Vec<String>) -> (r: Self)
        ensures
            r.spec_len() == strings@.len(),
            forall|i: int|
                0 <= i < strings@.len() ==> #[trigger] r.str_at(i) == encode_utf8(strings@[i]@),
    {
        let mut samples: Vec<Vec<u8>> = Vec::new();
        let mut k: usize = 0;
        while k < strings.len()
            invariant
                samples@.len() == k <= strings@.len(),
            decreases strings@.len() - k,
        {
            samples.push(vstd::slice::slice_to_vec(strings[k].as_str().as_bytes()));
            k = k + 1;
        }
        let trained = FsstTrained::train(&samples);
        let mut offsets: Vec<usize> = Vec::new();
        let mut data: Vec<u8> = Vec::new();
        let mut i: usize = 0;
        while i < strings.len()
            invariant
                offsets@.len() == i <= strings@.len(),
                dict_wf(trained.spec_syms(), trained.spec_lens()),
                forall|j: int| 0 <= j < i ==> #[trigger] offsets@[j] <= data@.len(),
                forall|j: int| 0 <= j < i - 1 ==> #[trigger] offsets@[j] <= offsets@[j + 1],
                forall|j: int| 0 <= j < i ==> codes_ok(#[trigger] chunk(data@, offsets@, j)),
                forall|j: int|
                    0 <= j < i ==> fsst_decode(
                        trained.spec_syms(),
                        trained.spec_lens(),
                        #[trigger] chunk(data@, offsets@, j),
                    ) == encode_utf8(strings@[j]@),
            decreases strings@.len() - i,
        {
            let ghost old_offsets = offsets@;
            let ghost old_data = data@;
            offsets.push(data.len());
            let sbytes = vstd::slice::slice_to_vec(strings[i].as_str().as_bytes());
            let codes = trained.compress(&sbytes);
            data.extend_from_slice(codes.as_slice());
            proof {
                assert forall|j: int| 0 <= j < i + 1 implies codes_ok(
                    #[trigger] chunk(data@, offsets@, j),
                ) && fsst_decode(trained.spec_syms(), trained.spec_lens(), chunk(data@, offsets@, j))
                    == encode_utf8(strings@[j]@) by {
                    if j < i {
                        assert(chunk(data@, offsets@, j) =~= chunk(old_data, old_offsets, j));
                    } else {
                        assert(chunk(data@, offsets@, j) =~= codes@);
                    }
                }
            }
            i = i + 1;
        }
        let r = FsstStrVec {
            dict_syms: vstd::slice::slice_to_vec(trained.syms.as_slice()),
            dict_lens: vstd::slice::slice_to_vec(trained.lens.as_slice()),
            offsets,
            data,
        };
        r
    }

    /// The dictionary symbols.
    pub closed spec fn spec_syms(self) -> Seq<u64> {
        self.dict_syms@
    }

    /// The dictionary symbol lengths.
    pub closed spec fn spec_lens(self) -> Seq<u8> {
        self.dict_lens@
    }

    /// The entry start offsets.
    pub closed spec fn spec_offsets(self) -> Seq<usize> {
        self.offsets@
    }

    /// The shared compressed code buffer.
    pub closed spec fn spec_data(self) -> Seq<u8> {
        self.data@
    }

    /// Read access to the dictionary symbols.
    pub fn syms(&self) -> (r: &Vec<u64>)
        ensures
            r@ == self.spec_syms(),
    {
        &self.dict_syms
    }

    /// Read access to the dictionary symbol lengths.
    pub fn lens(&self) -> (r: &Vec<u8>)
        ensures
            r@ == self.spec_lens(),
    {
        &self.dict_lens
    }

    /// Read access to the entry offsets.
    pub fn offsets(&self) -> (r: &Vec<usize>)
        ensures
            r@ == self.spec_offsets(),
    {
        &self.offsets
    }

    /// Read access to the code buffer.
    pub fn data(&self) -> (r: &Vec<u8>)
        ensures
            r@ == self.spec_data(),
    {
        &self.data
    }

    /// Two columns with the same stored parts hold the same strings.
    pub proof fn lemma_parts_determine(a: Self, b: Self)
        requires
            a.spec_syms() == b.spec_syms(),
            a.spec_lens() == b.spec_lens(),
            a.spec_offsets() == b.spec_offsets(),
            a.spec_data() == b.spec_data(),
        ensures
            a.spec_len() == b.spec_len(),
            forall|i: int| #[trigger] a.str_at(i) == b.str_at(i),
    {
    }

    /// Whether the stored parts form a valid column: a well-formed
    /// dictionary, monotone in-range offsets, and complete per-entry code
    /// streams.
    pub open spec fn parts_wf(
        syms: Seq<u64>,
        lens: Seq<u8>,
        offsets: Seq<usize>,
        data: Seq<u8>,
    ) -> bool {
        &&& dict_wf(syms, lens)
        &&& forall|i: int| 0 <= i < offsets.len() ==> #[trigger] offsets[i] <= data.len()
        &&& forall|i: int|
            0 <= i < offsets.len() - 1 ==> #[trigger] offsets[i] <= offsets[i + 1]
        &&& forall|i: int| 0 <= i < offsets.len() ==> codes_ok(#[trigger] chunk(data, offsets, i))
    }

    /// Every live column's stored parts are valid: the type invariant is
    /// exactly the parts check that deserialization applies.
    pub proof fn lemma_inv_parts_wf(c: FsstStrVec)
        requires
            c.wf(),
        ensures
            FsstStrVec::parts_wf(c.spec_syms(), c.spec_lens(), c.spec_offsets(), c.spec_data()),
    {
        assert(forall|i: int|
            0 <= i < c.offsets@.len() ==> #[trigger] chunk(c.spec_data(), c.spec_offsets(), i)
                == c.item_codes(i));
    }

    /// Rebuild a column from stored parts, checking their validity.
    pub fn from_parts(syms: Vec<u64>, lens: Vec<u8>, offsets: Vec<usize>, data: Vec<u8>) -> (r:
        Option<Self>)
        ensures
            r is Some <==> Self::parts_wf(syms@, lens@, offsets@, data@),
            r matches Some(c) ==> c.spec_syms() == syms@ && c.spec_lens() == lens@
                && c.spec_offsets() == offsets@ && c.spec_data() == data@,
    {
        if syms.len() != lens.len() || syms.len() > 255 {
            return None;
        }
        let mut i: usize = 0;
        while i < lens.len()
            invariant
                0 <= i <= lens@.len(),
                forall|j: int| 0 <= j < i ==> 1 <= #[trigger] lens@[j] <= 8,
            decreases lens@.len() - i,
        {
            if lens[i] < 1 || lens[i] > 8 {
                return None;
            }
            i = i + 1;
        }
        let mut i: usize = 0;
        while i < offsets.len()
            invariant
                0 <= i <= offsets@.len(),
                forall|j: int| 0 <= j < i ==> #[trigger] offsets@[j] <= data@.len(),
                forall|j: int|
                    0 <= j < i && j + 1 < offsets@.len() ==> #[trigger] offsets@[j]
                        <= offsets@[j + 1],
            decreases offsets@.len() - i,
        {
            if offsets[i] > data.len() {
                return None;
            }
            if i + 1 < offsets.len() && offsets[i] > offsets[i + 1] {
                proof {
                    assert(!Self::parts_wf(syms@, lens@, offsets@, data@)) by {
                        assert(offsets@[i as int] > offsets@[i as int + 1]);
                    }
                }
                return None;
            }
            i = i + 1;
        }
        let mut i: usize = 0;
        while i < offsets.len()
            invariant
                0 <= i <= offsets@.len(),
                forall|j: int| 0 <= j < offsets@.len() ==> #[trigger] offsets@[j] <= data@.len(),
                forall|j: int|
                    0 <= j < offsets@.len() - 1 ==> #[trigger] offsets@[j] <= offsets@[j + 1],
                forall|j: int| 0 <= j < i ==> codes_ok(#[trigger] chunk(data@, offsets@, j)),
            decreases offsets@.len() - i,
        {
            let start = offsets[i];
            let end = if i + 1 < offsets.len() {
                offsets[i + 1]
            } else {
                data.len()
            };
            proof {
                assert(data@.subrange(start as int, end as int) =~= chunk(
                    data@,
                    offsets@,
                    i as int,
                ));
            }
            if !check_codes(&data, start, end) {
                return None;
            }
            i = i + 1;
        }
        Some(FsstStrVec { dict_syms: syms, dict_lens: lens, offsets, data })
    }

    /// The number of strings.
    pub fn len(&self) -> (r: usize)
        ensures
            r == self.spec_len(),
    {
        self.offsets.len()
    }

    /// Random access: decode item `i` into an owned string.  Absent when `i`
    /// is out of range, and also when the stored bytes of item `i` are not
    /// valid UTF-8 (which never happens for a column built from strings).
    pub fn get(&self, i: usize) -> (r: Option<String>)
        ensures
            match r {
                Some(s) => i < self.spec_len() && valid_utf8(self.str_at(i as int)) && s@
                    == decode_utf8(self.str_at(i as int)),
                None => i >= self.spec_len() || !valid_utf8(self.str_at(i as int)),
            },
    {
        proof {
            use_type_invariant(self);
        }
        if i >= self.offsets.len() {
            return None;
        }
        let start = self.offsets[i];
        let end = if i + 1 < self.offsets.len() {
            self.offsets[i + 1]
        } else {
            self.data.len()
        };
        let codes: &[u8] = vstd::slice::slice_subrange(self.data.as_slice(), start, end);
        assert(codes@ == self.item_codes(i as int));
        let bytes = fsst_decompress(&self.dict_syms, &self.dict_lens, codes);
        string_from_utf8(bytes)
    }
}

} // verus!
