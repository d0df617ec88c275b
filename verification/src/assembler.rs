//! The module assembler: parse a prebuilt WebAssembly module section by
//! section, locate the two sentinel globals whose addresses mark the index
//! base pointer and length words, rewrite those words, append a data segment
//! carrying the serialized index, grow the declared memory, and re-emit.

use vstd::prelude::*;
use vstd::utf8::encode_utf8;

use crate::leb::{le32, le32_bytes, leb_parse, leb_read, leb_read_exact, leb_u64, leb_write,
    sleb, sleb_parse, sleb_read, sleb_skip, sleb_write};

verus! {

/// An assembly error.
#[derive(Debug, PartialEq, Eq)]
pub enum AssembleError {
    /// The input bytes are not a module this assembler can read.
    UnsupportedModule,
    /// A sentinel export or its address is missing, or the two sentinel
    /// words are not together inside one data segment.
    MissingSentinel,
    /// The produced module would be malformed, or its validation failed.
    ModuleInvalid,
}

/// One data segment of the module.
#[derive(Debug)]
pub struct DataSegment {
    /// Whether the segment is passive (copied on demand rather than at
    /// instantiation).
    pub passive: bool,
    /// The memory the segment initializes.
    pub memory_index: u32,
    /// The raw offset expression, terminator included.
    pub offset_bytes: Vec<u8>,
    /// The offset when the expression is a single 32-bit constant.
    pub offset_value: Option<i32>,
    /// The segment's bytes.
    pub data: Vec<u8>,
}

/// One section of the module, as the assembler models it.
#[derive(Debug)]
pub enum Section {
    /// The data section with its segments.
    Data(Vec<DataSegment>),
    /// The declared number of data segments.
    DataCount(u32),
    /// The memory section: its initial page count and optional maximum.
    Memory(u32, Option<u32>),
    /// Any other section, kept verbatim: its id and its contents.
    Raw(u8, Vec<u8>),
}

/// A parsed module: its sections in order and the two sentinel addresses.
#[derive(Debug)]
pub struct ParsedModule {
    /// The sections in their original order.
    pub sections: Vec<Section>,
    /// The declared initial page count of the first memory.
    pub old_pages: u32,
    /// The linear-memory address of the stored base pointer.
    pub base_addr: i32,
    /// The linear-memory address of the stored length word.
    pub len_addr: i32,
}

/// The size of one WebAssembly page in bytes.
pub const PAGE_SIZE: u64 = 65536;

/// The encoding of one data segment.
pub open spec fn seg_bytes(s: DataSegment) -> Seq<u8> {
    if s.passive {
        seq![1u8] + leb_u64(s.data@.len()) + s.data@
    } else if s.memory_index == 0 {
        seq![0u8] + s.offset_bytes@ + leb_u64(s.data@.len()) + s.data@
    } else {
        seq![2u8] + leb_u64(s.memory_index as nat) + s.offset_bytes@ + leb_u64(s.data@.len())
            + s.data@
    }
}

/// The concatenated encodings of the data segments.
pub open spec fn segs_bytes(ss: Seq<DataSegment>) -> Seq<u8>
    decreases ss.len(),
{
    if ss.len() == 0 {
        Seq::empty()
    } else {
        seg_bytes(ss[0]) + segs_bytes(ss.drop_first())
    }
}

/// The body of one section.
pub open spec fn sec_body(s: Section) -> Seq<u8> {
    match s {
        Section::Data(segs) => leb_u64(segs@.len()) + segs_bytes(segs@),
        Section::DataCount(c) => leb_u64(c as nat),
        Section::Memory(p, mx) => match mx {
            None => seq![1u8, 0u8] + leb_u64(p as nat),
            Some(x) => seq![1u8, 1u8] + leb_u64(p as nat) + leb_u64(x as nat),
        },
        Section::Raw(id, bytes) => bytes@,
    }
}

/// The id byte of one section.
pub open spec fn sec_id(s: Section) -> u8 {
    match s {
        Section::Data(_) => 11u8,
        Section::DataCount(_) => 12u8,
        Section::Memory(_, _) => 5u8,
        Section::Raw(id, _) => id,
    }
}

/// The encoding of one section: id, body size, body.
pub open spec fn sec_bytes(s: Section) -> Seq<u8> {
    seq![sec_id(s)] + leb_u64(sec_body(s).len()) + sec_body(s)
}

/// The concatenated encodings of the sections.
pub open spec fn secs_bytes(ss: Seq<Section>) -> Seq<u8>
    decreases ss.len(),
{
    if ss.len() == 0 {
        Seq::empty()
    } else {
        sec_bytes(ss[0]) + secs_bytes(ss.drop_first())
    }
}

/// The magic number and version of a module.
pub open spec fn module_magic() -> Seq<u8> {
    seq![0u8, 0x61u8, 0x73u8, 0x6Du8, 1u8, 0u8, 0u8, 0u8]
}

/// The encoding of a whole module.
pub open spec fn module_bytes(ss: Seq<Section>) -> Seq<u8> {
    module_magic() + secs_bytes(ss)
}

/// Four bytes of `w` written into `data` at `at`.
pub open spec fn write4(data: Seq<u8>, at: int, w: Seq<u8>) -> Seq<u8> {
    data.update(at, w[0]).update(at + 1, w[1]).update(at + 2, w[2]).update(at + 3, w[3])
}

proof fn lemma_segs_bytes_push(ss: Seq<DataSegment>, x: DataSegment)
    ensures
        segs_bytes(ss.push(x)) == segs_bytes(ss) + seg_bytes(x),
    decreases ss.len(),
{
    if ss.len() == 0 {
        assert(ss.push(x)[0] == x);
        assert(ss.push(x).drop_first() =~= Seq::<DataSegment>::empty());
        assert(segs_bytes(Seq::<DataSegment>::empty()) == Seq::<u8>::empty());
        assert(segs_bytes(ss.push(x)) =~= segs_bytes(ss) + seg_bytes(x));
    } else {
        assert(ss.push(x)[0] == ss[0]);
        assert(ss.push(x).drop_first() =~= ss.drop_first().push(x));
        lemma_segs_bytes_push(ss.drop_first(), x);
        assert(segs_bytes(ss.push(x)) =~= segs_bytes(ss) + seg_bytes(x));
    }
}

proof fn lemma_secs_bytes_push(ss: Seq<Section>, x: Section)
    ensures
        secs_bytes(ss.push(x)) == secs_bytes(ss) + sec_bytes(x),
    decreases ss.len(),
{
    if ss.len() == 0 {
        assert(ss.push(x)[0] == x);
        assert(ss.push(x).drop_first() =~= Seq::<Section>::empty());
        assert(secs_bytes(Seq::<Section>::empty()) == Seq::<u8>::empty());
        assert(secs_bytes(ss.push(x)) =~= secs_bytes(ss) + sec_bytes(x));
    } else {
        assert(ss.push(x)[0] == ss[0]);
        assert(ss.push(x).drop_first() =~= ss.drop_first().push(x));
        lemma_secs_bytes_push(ss.drop_first(), x);
        assert(secs_bytes(ss.push(x)) =~= secs_bytes(ss) + sec_bytes(x));
    }
}

/// Append the encoding of one data segment.
fn emit_segment(s: &DataSegment, out: &mut Vec<u8>)
    ensures
        final(out)@ == old(out)@ + seg_bytes(*s),
{
    if s.passive {
        out.push(1);
    } else if s.memory_index == 0 {
        out.push(0);
        out.extend_from_slice(s.offset_bytes.as_slice());
    } else {
        out.push(2);
        leb_write(s.memory_index as u64, out);
        out.extend_from_slice(s.offset_bytes.as_slice());
    }
    leb_write(s.data.len() as u64, out);
    out.extend_from_slice(s.data.as_slice());
    assert(out@ =~= old(out)@ + seg_bytes(*s));
}

/// Append the body of one section.
fn emit_body(s: &Section, out: &mut Vec<u8>)
    ensures
        final(out)@ == old(out)@ + sec_body(*s),
{
    match s {
        Section::Data(segs) => {
            leb_write(segs.len() as u64, out);
            let ghost base = out@;
            let mut i: usize = 0;
            proof {
                assert(segs_bytes(segs@.take(0)) =~= Seq::<u8>::empty());
                assert(out@ =~= base + segs_bytes(segs@.take(0)));
            }
            while i < segs.len()
                invariant
                    0 <= i <= segs@.len(),
                    out@ == base + segs_bytes(segs@.take(i as int)),
                decreases segs@.len() - i,
            {
                emit_segment(&segs[i], out);
                proof {
                    assert(segs@.take(i as int + 1) =~= segs@.take(i as int).push(
                        segs@[i as int],
                    ));
                    lemma_segs_bytes_push(segs@.take(i as int), segs@[i as int]);
                    assert(out@ =~= base + segs_bytes(segs@.take(i as int + 1)));
                }
                i = i + 1;
            }
            proof {
                assert(segs@.take(segs@.len() as int) =~= segs@);
                assert(out@ =~= old(out)@ + sec_body(*s));
            }
        },
        Section::DataCount(c) => {
            leb_write(*c as u64, out);
            assert(out@ =~= old(out)@ + sec_body(*s));
        },
        Section::Memory(p, mx) => {
            out.push(1);
            match mx {
                None => {
                    out.push(0);
                    leb_write(*p as u64, out);
                },
                Some(x) => {
                    out.push(1);
                    leb_write(*p as u64, out);
                    leb_write(*x as u64, out);
                },
            }
            assert(out@ =~= old(out)@ + sec_body(*s));
        },
        Section::Raw(id, bytes) => {
            out.extend_from_slice(bytes.as_slice());
            assert(out@ =~= old(out)@ + sec_body(*s));
        },
    }
}

/// Encode a whole module: magic, version, and each section in order.
pub fn emit_module(sections: &Vec<Section>) -> (r: Vec<u8>)
    ensures
        r@ == module_bytes(sections@),
{
    let mut out: Vec<u8> = Vec::new();
    out.push(0);
    out.push(0x61);
    out.push(0x73);
    out.push(0x6D);
    out.push(1);
    out.push(0);
    out.push(0);
    out.push(0);
    proof {
        assert(out@ =~= module_magic());
        assert(secs_bytes(sections@.take(0)) =~= Seq::<u8>::empty());
        assert(out@ =~= module_magic() + secs_bytes(sections@.take(0)));
    }
    let mut i: usize = 0;
    while i < sections.len()
        invariant
            0 <= i <= sections@.len(),
            out@ == module_magic() + secs_bytes(sections@.take(i as int)),
        decreases sections@.len() - i,
    {
        let mut body: Vec<u8> = Vec::new();
        emit_body(&sections[i], &mut body);
        out.push(match &sections[i] {
            Section::Data(_) => 11,
            Section::DataCount(_) => 12,
            Section::Memory(_, _) => 5,
            Section::Raw(id, _) => *id,
        });
        leb_write(body.len() as u64, &mut out);
        out.extend_from_slice(body.as_slice());
        proof {
            assert(sections@.take(i as int + 1) =~= sections@.take(i as int).push(
                sections@[i as int],
            ));
            lemma_secs_bytes_push(sections@.take(i as int), sections@[i as int]);
            assert(out@ =~= module_magic() + secs_bytes(sections@.take(i as int + 1)));
        }
        i = i + 1;
    }
    proof {
        assert(sections@.take(sections@.len() as int) =~= sections@);
    }
    out
}

} // verus!

verus! {

/// The page count of the patched module: the old count, one page per full
/// 64 KiB of index, and one page of unconditional slack.
pub open spec fn new_page_count(old_pages: u32, raw_len: nat) -> nat {
    (old_pages + raw_len / (PAGE_SIZE as nat) + 1) as nat
}

/// The linear-memory byte offset where the appended index is placed.
pub open spec fn index_base_of(old_pages: u32) -> nat {
    (old_pages * (PAGE_SIZE as nat)) as nat
}

/// A value truncated to 32 bits.
pub open spec fn wrap32(v: nat) -> u32 {
    (v % 0x100000000) as u32
}

/// A 32-bit word read as a signed constant.
pub open spec fn as_i32(v: u32) -> int {
    if v >= 0x80000000 {
        v - 0x100000000
    } else {
        v as int
    }
}

/// Whether an active constant-offset segment covers the base-pointer word.
pub open spec fn seg_holds_base(s: DataSegment, base_addr: int) -> bool {
    &&& !s.passive
    &&& s.offset_value is Some
    &&& s.offset_value.unwrap() <= base_addr
    &&& base_addr < s.offset_value.unwrap() + s.data@.len()
}

/// Whether a segment that holds the base-pointer word can be patched: the
/// length word lies in the same segment and both words fit inside it.
pub open spec fn seg_patchable(s: DataSegment, base_addr: int, len_addr: int) -> bool {
    seg_holds_base(s, base_addr) ==> {
        let start = s.offset_value.unwrap() as int;
        &&& start <= len_addr < start + s.data@.len()
        &&& base_addr - start + 4 <= s.data@.len()
        &&& len_addr - start + 4 <= s.data@.len()
    }
}

/// How one segment of the input relates to the corresponding output segment:
/// a segment holding the base-pointer word has the two sentinel words
/// overwritten, every other segment passes through unchanged.
pub open spec fn patched_seg(
    s: DataSegment,
    t: DataSegment,
    base_addr: int,
    len_addr: int,
    ib: u32,
    raw_len: u32,
) -> bool {
    if seg_holds_base(s, base_addr) {
        let start = s.offset_value.unwrap() as int;
        &&& t.passive == s.passive
        &&& t.memory_index == s.memory_index
        &&& t.offset_bytes@ == s.offset_bytes@
        &&& t.offset_value == s.offset_value
        &&& t.data@ == write4(
            write4(s.data@, base_addr - start, le32(ib)),
            len_addr - start,
            le32(raw_len),
        )
    } else {
        t == s
    }
}

/// The appended segment: active in memory zero at the index base, carrying
/// the serialized index.
pub open spec fn appended_seg(t: DataSegment, ib: u32, raw_index: Seq<u8>) -> bool {
    &&& !t.passive
    &&& t.memory_index == 0
    &&& t.offset_bytes@ == seq![0x41u8] + sleb(as_i32(ib)) + seq![0x0Bu8]
    &&& t.offset_value == Some(as_i32(ib) as i32)
    &&& t.data@ == raw_index
}

/// How one section of the input relates to the corresponding output section.
pub open spec fn patched_sec(
    s: Section,
    t: Section,
    base_addr: int,
    len_addr: int,
    ib: u32,
    raw_index: Seq<u8>,
    nb: u32,
) -> bool {
    match s {
        Section::Memory(_, _) => t == Section::Memory(nb, None),
        Section::DataCount(c) => t == Section::DataCount((c + 1) as u32),
        Section::Raw(id, bytes) => t == s,
        Section::Data(segs) => t matches Section::Data(out_segs) && out_segs@.len() == segs@.len()
            + 1 && (forall|j: int|
            0 <= j < segs@.len() ==> patched_seg(
                segs@[j],
                #[trigger] out_segs@[j],
                base_addr,
                len_addr,
                ib,
                wrap32(raw_index.len()),
            )) && appended_seg(out_segs@[segs@.len() as int], ib, raw_index),
    }
}

/// Whether one section can be patched: a data count below the maximum, and
/// every sentinel-holding data segment patchable.
pub open spec fn sec_ok(s: Section, base_addr: int, len_addr: int) -> bool {
    match s {
        Section::Data(segs) => forall|j: int|
            0 <= j < segs@.len() ==> seg_patchable(#[trigger] segs@[j], base_addr, len_addr),
        Section::DataCount(c) => c < u32::MAX,
        Section::Memory(_, _) => true,
        Section::Raw(_, _) => true,
    }
}

/// Whether some active constant-offset data segment covers the base-pointer
/// word; when none does, the module cannot carry the sentinels and patching
/// must fail.
pub open spec fn some_seg_holds_base(sections: Seq<Section>, base_addr: int) -> bool {
    exists|k: int, j: int|
        0 <= k < sections.len() && (#[trigger] sections[k]) is Data && 0 <= j
            < sections[k]->Data_0@.len() && seg_holds_base(
            #[trigger] sections[k]->Data_0@[j],
            base_addr,
        )
}

/// Extending the prefix by one section adds exactly that section's segments
/// to the base-holder search.
proof fn lemma_holds_base_take_step(sections: Seq<Section>, n: int, base: int)
    requires
        0 <= n < sections.len(),
    ensures
        some_seg_holds_base(sections.take(n + 1), base) == (some_seg_holds_base(
            sections.take(n),
            base,
        ) || (sections[n] is Data && exists|j: int|
            0 <= j < sections[n]->Data_0@.len() && seg_holds_base(
                #[trigger] sections[n]->Data_0@[j],
                base,
            ))),
{
    if some_seg_holds_base(sections.take(n + 1), base) {
        let (k, j) = choose|k: int, j: int|
            0 <= k < sections.take(n + 1).len() && (#[trigger] sections.take(n + 1)[k]) is Data
                && 0 <= j < sections.take(n + 1)[k]->Data_0@.len() && seg_holds_base(
                #[trigger] sections.take(n + 1)[k]->Data_0@[j],
                base,
            );
        if k < n {
            assert(sections.take(n)[k] == sections[k]);
            assert(some_seg_holds_base(sections.take(n), base)) by {
                assert(sections.take(n)[k] is Data && seg_holds_base(
                    sections.take(n)[k]->Data_0@[j],
                    base,
                ));
            }
        } else {
            assert(sections.take(n + 1)[k] == sections[n]);
        }
    }
    if some_seg_holds_base(sections.take(n), base) {
        let (k, j) = choose|k: int, j: int|
            0 <= k < sections.take(n).len() && (#[trigger] sections.take(n)[k]) is Data && 0 <= j
                < sections.take(n)[k]->Data_0@.len() && seg_holds_base(
                #[trigger] sections.take(n)[k]->Data_0@[j],
                base,
            );
        assert(sections.take(n + 1)[k] == sections.take(n)[k]);
        assert(some_seg_holds_base(sections.take(n + 1), base)) by {
            assert(sections.take(n + 1)[k] is Data && seg_holds_base(
                sections.take(n + 1)[k]->Data_0@[j],
                base,
            ));
        }
    }
    if sections[n] is Data && exists|j: int|
        0 <= j < sections[n]->Data_0@.len() && seg_holds_base(
            #[trigger] sections[n]->Data_0@[j],
            base,
        ) {
        let j = choose|j: int|
            0 <= j < sections[n]->Data_0@.len() && seg_holds_base(
                #[trigger] sections[n]->Data_0@[j],
                base,
            );
        assert(sections.take(n + 1)[n] == sections[n]);
        assert(some_seg_holds_base(sections.take(n + 1), base)) by {
            assert(sections.take(n + 1)[n] is Data && seg_holds_base(
                sections.take(n + 1)[n]->Data_0@[j],
                base,
            ));
        }
    }
}

/// Overwrite the four bytes at `at` with `w`.
fn write_word(data: &mut Vec<u8>, at: usize, w: [u8; 4])
    requires
        at + 4 <= old(data)@.len(),
    ensures
        final(data)@ == write4(old(data)@, at as int, w@),
{
    let n: usize = data.len();
    let b0 = w[0];
    let b1 = w[1];
    let b2 = w[2];
    let b3 = w[3];
    data[at] = b0;
    data[at + 1] = b1;
    data[at + 2] = b2;
    data[at + 3] = b3;
    proof {
        assert(w@[0] == b0 && w@[1] == b1 && w@[2] == b2 && w@[3] == b3);
    }
}

/// Patch one data segment, overwriting the sentinel words when the segment
/// holds them; reports whether it did.
fn patch_segment(seg: DataSegment, base_addr: i32, len_addr: i32, ib: u32, raw_len: u32) -> (r:
    Result<(DataSegment, bool), AssembleError>)
    ensures
        r is Ok <==> seg_patchable(seg, base_addr as int, len_addr as int),
        r matches Err(e) ==> e == AssembleError::MissingSentinel,
        r matches Ok(t) ==> patched_seg(
            seg,
            t.0,
            base_addr as int,
            len_addr as int,
            ib,
            raw_len,
        ) && t.1 == seg_holds_base(seg, base_addr as int),
{
    let mut seg = seg;
    let dlen: usize = seg.data.len();
    let hit = !seg.passive && match seg.offset_value {
        Some(off) => off <= base_addr && ((base_addr as i64 - off as i64) as u64) < dlen as u64,
        None => false,
    };
    if !hit {
        return Ok((seg, false));
    }
    let off = match seg.offset_value {
        Some(o) => o,
        None => {
            proof {
                assert(false);
            }
            return Err(AssembleError::MissingSentinel);
        },
    };
    if !(off <= len_addr && ((len_addr as i64 - off as i64) as u64) < dlen as u64) {
        return Err(AssembleError::MissingSentinel);
    }
    let base_rel = (base_addr as i64 - off as i64) as usize;
    let len_rel = (len_addr as i64 - off as i64) as usize;
    if dlen < 4 || base_rel > dlen - 4 || len_rel > dlen - 4 {
        return Err(AssembleError::MissingSentinel);
    }
    write_word(&mut seg.data, base_rel, le32_bytes(ib));
    write_word(&mut seg.data, len_rel, le32_bytes(raw_len));
    Ok((seg, true))
}

/// Compute the patched section list: grow the memory, bump the data count,
/// rewrite the sentinel words, and append the index segment.  Fails when a
/// data count cannot grow, when a segment holding the base-pointer word is
/// not patchable, or when no segment holds that word at all.
pub fn patch_module(m: ParsedModule, raw_index: &Vec<u8>) -> (r: Result<
    Vec<Section>,
    AssembleError,
>)
    ensures
        ({
            let nb = new_page_count(m.old_pages, raw_index@.len());
            let ib = wrap32(index_base_of(m.old_pages));
            &&& (r is Ok <==> (nb <= u32::MAX && (forall|k: int|
                0 <= k < m.sections@.len() ==> sec_ok(
                    #[trigger] m.sections@[k],
                    m.base_addr as int,
                    m.len_addr as int,
                )) && some_seg_holds_base(m.sections@, m.base_addr as int)))
            &&& (r matches Ok(out) ==> out@.len() == m.sections@.len() && (forall|k: int|
                0 <= k < m.sections@.len() ==> patched_sec(
                    m.sections@[k],
                    #[trigger] out@[k],
                    m.base_addr as int,
                    m.len_addr as int,
                    ib,
                    raw_index@,
                    nb as u32,
                )))
            &&& (r matches Err(e) ==> (e == AssembleError::ModuleInvalid || e
                == AssembleError::MissingSentinel))
            &&& (r matches Err(e) && e == AssembleError::MissingSentinel ==> nb <= u32::MAX && (!(
            forall|k: int|
                0 <= k < m.sections@.len() ==> sec_ok(
                    #[trigger] m.sections@[k],
                    m.base_addr as int,
                    m.len_addr as int,
                )) || !some_seg_holds_base(m.sections@, m.base_addr as int)))
        }),
{
    let raw_len_words: u32 = (raw_index.len() as u64 % 0x100000000) as u32;
    let np64: u64 = m.old_pages as u64 + raw_index.len() as u64 / PAGE_SIZE + 1;
    if np64 > u32::MAX as u64 {
        proof {
            assert(np64 == new_page_count(m.old_pages, raw_index@.len()));
        }
        return Err(AssembleError::ModuleInvalid);
    }
    let nb: u32 = np64 as u32;
    let ib: u32 = ((m.old_pages as u64 * PAGE_SIZE) % 0x100000000) as u32;
    let sval: i64 = if ib >= 0x80000000 {
        ib as i64 - 0x100000000
    } else {
        ib as i64
    };
    proof {
        assert(nb == new_page_count(m.old_pages, raw_index@.len()));
        assert(ib == wrap32(index_base_of(m.old_pages)));
        assert(sval == as_i32(ib));
        assert(raw_len_words == wrap32(raw_index@.len()));
    }
    let mut sections = m.sections;
    let ghost orig = sections@;
    let mut out: Vec<Section> = Vec::new();
    let mut found = false;
    proof {
        assert(orig.take(0) =~= Seq::<Section>::empty());
    }
    while sections.len() > 0
        invariant
            orig == m.sections@,
            sections@ =~= orig.skip(out@.len() as int),
            out@.len() <= orig.len(),
            found == some_seg_holds_base(orig.take(out@.len() as int), m.base_addr as int),
            nb == new_page_count(m.old_pages, raw_index@.len()),
            ib == wrap32(index_base_of(m.old_pages)),
            sval == as_i32(ib),
            raw_len_words == wrap32(raw_index@.len()),
            forall|k: int|
                0 <= k < out@.len() ==> patched_sec(
                    orig[k],
                    #[trigger] out@[k],
                    m.base_addr as int,
                    m.len_addr as int,
                    ib,
                    raw_index@,
                    nb,
                ),
            forall|k: int|
                0 <= k < out@.len() ==> sec_ok(
                    #[trigger] orig[k],
                    m.base_addr as int,
                    m.len_addr as int,
                ),
        decreases sections@.len(),
    {
        let ghost done = out@.len() as int;
        let ghost old_sections = sections@;
        let sec = sections.remove(0);
        proof {
            assert(sec == orig[done]);
            assert(sections@ =~= orig.skip(done + 1));
        }
        match sec {
            Section::Memory(_, _) => {
                out.push(Section::Memory(nb, None));
                proof {
                    lemma_holds_base_take_step(orig, done, m.base_addr as int);
                }
            },
            Section::DataCount(c) => {
                if c == u32::MAX {
                    proof {
                        assert(orig[done] == Section::DataCount(c));
                        assert(!sec_ok(orig[done], m.base_addr as int, m.len_addr as int));
                    }
                    return Err(AssembleError::ModuleInvalid);
                }
                out.push(Section::DataCount(c + 1));
                proof {
                    lemma_holds_base_take_step(orig, done, m.base_addr as int);
                }
            },
            Section::Raw(id, bytes) => {
                out.push(Section::Raw(id, bytes));
                proof {
                    lemma_holds_base_take_step(orig, done, m.base_addr as int);
                }
            },
            Section::Data(segs) => {
                let mut segs = segs;
                let ghost segs_orig = segs@;
                proof {
                    assert(orig[done] is Data && orig[done]->Data_0@ == segs_orig);
                }
                let mut new_segs: Vec<DataSegment> = Vec::new();
                let mut sec_hit = false;
                while segs.len() > 0
                    invariant
                        orig == m.sections@,
                        0 <= done < orig.len(),
                        orig[done] is Data && orig[done]->Data_0@ == segs_orig,
                        segs@ =~= segs_orig.skip(new_segs@.len() as int),
                        new_segs@.len() <= segs_orig.len(),
                        sec_hit == (exists|j: int|
                            0 <= j < new_segs@.len() && seg_holds_base(
                                #[trigger] segs_orig[j],
                                m.base_addr as int,
                            )),
                        nb == new_page_count(m.old_pages, raw_index@.len()),
                        ib == wrap32(index_base_of(m.old_pages)),
                        raw_len_words == wrap32(raw_index@.len()),
                        forall|j: int|
                            0 <= j < new_segs@.len() ==> patched_seg(
                                segs_orig[j],
                                #[trigger] new_segs@[j],
                                m.base_addr as int,
                                m.len_addr as int,
                                ib,
                                raw_len_words,
                            ),
                        forall|j: int|
                            0 <= j < new_segs@.len() ==> seg_patchable(
                                #[trigger] segs_orig[j],
                                m.base_addr as int,
                                m.len_addr as int,
                            ),
                    decreases segs@.len(),
                {
                    let ghost sdone = new_segs@.len() as int;
                    let sg = segs.remove(0);
                    proof {
                        assert(sg == segs_orig[sdone]);
                        assert(segs@ =~= segs_orig.skip(sdone + 1));
                    }
                    match patch_segment(sg, m.base_addr, m.len_addr, ib, raw_len_words) {
                        Ok((t, hit)) => {
                            new_segs.push(t);
                            let ghost prev_hit = sec_hit;
                            sec_hit = sec_hit || hit;
                            proof {
                                if hit {
                                    assert(seg_holds_base(segs_orig[sdone], m.base_addr as int));
                                } else if prev_hit {
                                    let j = choose|j: int|
                                        0 <= j < sdone && seg_holds_base(
                                            #[trigger] segs_orig[j],
                                            m.base_addr as int,
                                        );
                                    assert(seg_holds_base(segs_orig[j], m.base_addr as int));
                                }
                            }
                        },
                        Err(e) => {
                            proof {
                                assert(!seg_patchable(
                                    segs_orig[sdone],
                                    m.base_addr as int,
                                    m.len_addr as int,
                                ));
                                assert(orig[done] is Data && orig[done]->Data_0@ == segs_orig);
                                assert(!sec_ok(orig[done], m.base_addr as int, m.len_addr as int));
                                assert(!(forall|k: int|
                                    0 <= k < m.sections@.len() ==> sec_ok(
                                        #[trigger] m.sections@[k],
                                        m.base_addr as int,
                                        m.len_addr as int,
                                    ))) by {
                                    assert(!sec_ok(
                                        m.sections@[done],
                                        m.base_addr as int,
                                        m.len_addr as int,
                                    ));
                                }
                            }
                            return Err(e);
                        },
                    }
                }
                let mut offset_bytes: Vec<u8> = Vec::new();
                offset_bytes.push(0x41);
                sleb_write(sval, &mut offset_bytes);
                offset_bytes.push(0x0B);
                proof {
                    assert(offset_bytes@ =~= seq![0x41u8] + sleb(as_i32(ib)) + seq![0x0Bu8]);
                }
                let appended = DataSegment {
                    passive: false,
                    memory_index: 0,
                    offset_bytes,
                    offset_value: Some(sval as i32),
                    data: vstd::slice::slice_to_vec(raw_index.as_slice()),
                };
                let ghost had_hit = sec_hit;
                proof {
                    assert(had_hit == (exists|j: int|
                        0 <= j < segs_orig.len() && seg_holds_base(
                            #[trigger] segs_orig[j],
                            m.base_addr as int,
                        )));
                }
                new_segs.push(appended);
                proof {
                    assert(segs_orig.skip(segs_orig.len() as int) =~= Seq::<DataSegment>::empty());
                    assert(new_segs@.len() == segs_orig.len() + 1);
                    assert(appended_seg(new_segs@[segs_orig.len() as int], ib, raw_index@));
                    assert(sec_ok(orig[done], m.base_addr as int, m.len_addr as int));
                }
                out.push(Section::Data(new_segs));
                found = found || sec_hit;
                proof {
                    lemma_holds_base_take_step(orig, done, m.base_addr as int);
                    assert(found == some_seg_holds_base(
                        orig.take(done + 1),
                        m.base_addr as int,
                    ));
                }
            },
        }
        proof {
            assert(out@.len() == done + 1);
            assert(patched_sec(
                orig[done],
                out@[done],
                m.base_addr as int,
                m.len_addr as int,
                ib,
                raw_index@,
                nb,
            ));
        }
    }
    proof {
        assert(out@.len() == orig.len());
        assert(orig.take(orig.len() as int) =~= orig);
        assert(forall|k: int|
            0 <= k < orig.len() ==> sec_ok(
                #[trigger] orig[k],
                m.base_addr as int,
                m.len_addr as int,
            ));
    }
    if !found {
        return Err(AssembleError::MissingSentinel);
    }
    Ok(out)
}

} // verus!

verus! {

/// Whether bytes form a valid WebAssembly module; names the verdict of
/// `wasmparser::Validator::validate_all`.
pub uninterp spec fn wasm_valid(bytes: Seq<u8>) -> bool;

/// Relies on wasmparser::Validator::validate_all: module validation is a
/// pure function of the bytes.
#[verifier::external_body]
fn validate_module(bytes: &Vec<u8>) -> (r: bool)
    ensures
        r == wasm_valid(bytes@),
{
    wasmparser::Validator::new().validate_all(bytes.as_slice()).is_ok()
}

/// One supported constant expression spanning `[p, end)` of `b`, terminator
/// included: a 32-bit constant (whose value is `v`), a 64-bit or float
/// constant, or a global read.
pub open spec fn const_expr_at(b: Seq<u8>, p: int, end: int, v: Option<i32>) -> bool {
    &&& 0 <= p < end <= b.len()
    &&& b[end - 1] == 0x0B
    &&& (v matches Some(off) ==> b[p] == 0x41 && sleb_parse(b, p + 1, 5) == Some(
        (off as int, end - 1 - (p + 1)),
    ))
    &&& (v is None ==> b[p] != 0x41 && ((b[p] == 0x42 && (sleb_parse(b, p + 1, 10) matches Some(
        x,
    ) && end == p + 1 + x.1 + 1)) || (b[p] == 0x43 && end == p + 6) || (b[p] == 0x44 && end == p
        + 10) || (b[p] == 0x23 && (leb_parse(b, p + 1) matches Some(g) && g.0 <= u64::MAX && g.0
        <= u32::MAX && end == p + 1 + g.1 + 1))))
}

/// What expression parsing yields at `p`: the position after the terminator
/// and the 32-bit constant's value, for the supported shapes.
pub open spec fn dec_expr(b: Seq<u8>, p: int) -> Option<(int, Option<i32>)> {
    if p < 0 || p >= b.len() {
        None
    } else if b[p] == 0x41 {
        match sleb_parse(b, p + 1, 5) {
            None => None,
            Some((v, l)) => if v < -0x80000000 || v > 0x7FFFFFFF {
                None
            } else if p + 1 + l < b.len() && b[p + 1 + l] == 0x0B {
                Some((p + 1 + l + 1, Some(v as i32)))
            } else {
                None
            },
        }
    } else if b[p] == 0x42 {
        match sleb_parse(b, p + 1, 10) {
            None => None,
            Some((v, l)) => if p + 1 + l < b.len() && b[p + 1 + l] == 0x0B {
                Some((p + 1 + l + 1, None))
            } else {
                None
            },
        }
    } else if b[p] == 0x43 {
        if p + 5 < b.len() && b[p + 5] == 0x0B {
            Some((p + 6, None))
        } else {
            None
        }
    } else if b[p] == 0x44 {
        if p + 9 < b.len() && b[p + 9] == 0x0B {
            Some((p + 10, None))
        } else {
            None
        }
    } else if b[p] == 0x23 {
        match leb_parse(b, p + 1) {
            None => None,
            Some((g, l)) => if g > u32::MAX {
                None
            } else if p + 1 + l < b.len() && b[p + 1 + l] == 0x0B {
                Some((p + 1 + l + 1, None))
            } else {
                None
            },
        }
    } else {
        None
    }
}

/// Parse one constant expression of the supported shapes, returning the
/// position after its terminator and its value when it is a 32-bit constant.
fn parse_expr(b: &Vec<u8>, p: usize) -> (r: Option<(usize, Option<i32>)>)
    ensures
        r matches Some(x) ==> const_expr_at(b@, p as int, x.0 as int, x.1),
        match dec_expr(b@, p as int) {
            Some(x) => r matches Some(y) && y.0 == x.0 && y.1 == x.1,
            None => r is None,
        },
{
    let blen: usize = b.len();
    if p >= blen {
        return None;
    }
    let op = b[p];
    let (end, val): (usize, Option<i32>) = if op == 0x41 {
        match sleb_read(b, p + 1, 5) {
            Some((v, q)) => {
                if v < -0x80000000i64 || v > 0x7FFFFFFFi64 {
                    return None;
                }
                (q, Some(v as i32))
            },
            None => {
                return None;
            },
        }
    } else if op == 0x42 {
        match sleb_skip(b, p + 1, 10) {
            Some(q) => (q, None),
            None => {
                return None;
            },
        }
    } else if op == 0x43 {
        if blen - p <= 5 {
            return None;
        }
        (p + 5, None)
    } else if op == 0x44 {
        if blen - p <= 9 {
            return None;
        }
        (p + 9, None)
    } else if op == 0x23 {
        match leb_read(b, p + 1) {
            Some((v, q)) => {
                if v > u32::MAX as u64 {
                    return None;
                }
                (q, None)
            },
            None => {
                return None;
            },
        }
    } else {
        return None;
    };
    if end >= blen {
        return None;
    }
    if b[end] != 0x0B {
        return None;
    }
    Some((end + 1, val))
}

/// Copy the bytes of `b` between `from` and `to`.
fn copy_range(b: &Vec<u8>, from: usize, to: usize) -> (r: Vec<u8>)
    requires
        from <= to <= b@.len(),
    ensures
        r@ == b@.subrange(from as int, to as int),
{
    vstd::slice::slice_to_vec(vstd::slice::slice_subrange(b.as_slice(), from, to))
}

/// Parse the data section's segments; the body is exactly the encoding of
/// the parsed segments.
#[verifier::rlimit(60)]
fn parse_data_section(b: &Vec<u8>, start: usize, end: usize) -> (r: Result<
    Vec<DataSegment>,
    AssembleError,
>)
    requires
        start <= end <= b@.len(),
    ensures
        r matches Ok(segs) ==> b@.subrange(start as int, end as int) == leb_u64(segs@.len())
            + segs_bytes(segs@),
        r matches Err(e) ==> e == AssembleError::UnsupportedModule,
{
    let blen: usize = b.len();
    let (count, payload) = match leb_read_exact(b, start) {
        Some(x) => x,
        None => {
            return Err(AssembleError::UnsupportedModule);
        },
    };
    let mut pos = payload;
    let mut segs: Vec<DataSegment> = Vec::new();
    let mut i: u64 = 0;
    proof {
        assert(b@.subrange(payload as int, pos as int) =~= segs_bytes(segs@));
    }
    while i < count
        invariant
            start < payload <= pos <= b@.len(),
            b@.len() == blen,
            0 <= i <= count,
            segs@.len() == i,
            b@.subrange(start as int, payload as int) == leb_u64(count as nat),
            b@.subrange(payload as int, pos as int) == segs_bytes(segs@),
        decreases count - i,
    {
        let (kind, p1) = match leb_read_exact(b, pos) {
            Some(x) => x,
            None => {
                return Err(AssembleError::UnsupportedModule);
            },
        };
        let passive = kind == 1;
        let mut memory_index: u32 = 0;
        let mut p2 = p1;
        if kind == 2 {
            let (mi, q) = match leb_read_exact(b, p1) {
                Some(x) => x,
                None => {
                    return Err(AssembleError::UnsupportedModule);
                },
            };
            if mi == 0 || mi > u32::MAX as u64 {
                return Err(AssembleError::UnsupportedModule);
            }
            memory_index = mi as u32;
            p2 = q;
        } else if kind != 0 && kind != 1 {
            return Err(AssembleError::UnsupportedModule);
        }
        let (offset_bytes, offset_value, p3): (Vec<u8>, Option<i32>, usize) = if passive {
            (Vec::new(), None, p2)
        } else {
            match parse_expr(b, p2) {
                Some((e, v)) => (copy_range(b, p2, e), v, e),
                None => {
                    return Err(AssembleError::UnsupportedModule);
                },
            }
        };
        let (dlen, p4) = match leb_read_exact(b, p3) {
            Some(x) => x,
            None => {
                return Err(AssembleError::UnsupportedModule);
            },
        };
        if dlen > (blen - p4) as u64 {
            return Err(AssembleError::UnsupportedModule);
        }
        let p5 = p4 + dlen as usize;
        let data = copy_range(b, p4, p5);
        let ghost old_segs = segs@;
        let seg = DataSegment { passive, memory_index, offset_bytes, offset_value, data };
        proof {
            assert(seg.data@.len() == dlen);
            if passive {
                assert(leb_u64(kind as nat) =~= seq![1u8]);
                assert(b@.subrange(pos as int, p5 as int) =~= seg_bytes(seg)) by {
                    assert(b@.subrange(pos as int, p1 as int) == leb_u64(kind as nat));
                    assert(b@.subrange(p3 as int, p4 as int) == leb_u64(dlen as nat));
                    assert(b@.subrange(p4 as int, p5 as int) == seg.data@);
                    assert(seg_bytes(seg) == seq![1u8] + leb_u64(seg.data@.len()) + seg.data@);
                }
            } else if kind == 0 {
                assert(leb_u64(kind as nat) =~= seq![0u8]);
                assert(b@.subrange(pos as int, p5 as int) =~= seg_bytes(seg)) by {
                    assert(b@.subrange(pos as int, p1 as int) == leb_u64(kind as nat));
                    assert(b@.subrange(p2 as int, p3 as int) == seg.offset_bytes@);
                    assert(b@.subrange(p3 as int, p4 as int) == leb_u64(dlen as nat));
                    assert(b@.subrange(p4 as int, p5 as int) == seg.data@);
                    assert(seg_bytes(seg) == seq![0u8] + seg.offset_bytes@ + leb_u64(
                        seg.data@.len(),
                    ) + seg.data@);
                }
            } else {
                assert(kind == 2 && seg.memory_index != 0);
                assert(leb_u64(kind as nat) =~= seq![2u8]);
                assert(b@.subrange(pos as int, p5 as int) =~= seg_bytes(seg)) by {
                    assert(b@.subrange(pos as int, p1 as int) == leb_u64(kind as nat));
                    assert(b@.subrange(p1 as int, p2 as int) == leb_u64(seg.memory_index as nat));
                    assert(b@.subrange(p2 as int, p3 as int) == seg.offset_bytes@);
                    assert(b@.subrange(p3 as int, p4 as int) == leb_u64(dlen as nat));
                    assert(b@.subrange(p4 as int, p5 as int) == seg.data@);
                    assert(seg_bytes(seg) == seq![2u8] + leb_u64(seg.memory_index as nat)
                        + seg.offset_bytes@ + leb_u64(seg.data@.len()) + seg.data@);
                }
            }
        }
        segs.push(seg);
        proof {
            lemma_segs_bytes_push(old_segs, seg);
            assert(b@.subrange(payload as int, p5 as int) =~= segs_bytes(segs@));
        }
        pos = p5;
        i = i + 1;
    }
    if pos != end {
        return Err(AssembleError::UnsupportedModule);
    }
    proof {
        assert(segs@.len() == count as nat);
        assert(b@.subrange(start as int, end as int) =~= b@.subrange(start as int, payload as int)
            + b@.subrange(payload as int, end as int));
        assert(b@.subrange(start as int, end as int) =~= leb_u64(segs@.len()) + segs_bytes(
            segs@,
        ));
    }
    Ok(segs)
}

/// Parse the memory section: one memory with its initial page count and
/// optional maximum; its body is exactly the section encoding of that model.
fn parse_memory_section(b: &Vec<u8>, start: usize, end: usize) -> (r: Result<
    (u32, Option<u32>),
    AssembleError,
>)
    requires
        start <= end <= b@.len(),
    ensures
        r matches Ok(mem) ==> b@.subrange(start as int, end as int) == sec_body(
            Section::Memory(mem.0, mem.1),
        ),
        r matches Err(e) ==> e == AssembleError::UnsupportedModule,
{
    let blen: usize = b.len();
    let (count, pos) = match leb_read_exact(b, start) {
        Some(x) => x,
        None => {
            return Err(AssembleError::UnsupportedModule);
        },
    };
    if count != 1 {
        return Err(AssembleError::UnsupportedModule);
    }
    if pos >= blen || pos != start + 1 {
        return Err(AssembleError::UnsupportedModule);
    }
    let flags = b[pos];
    if flags != 0 && flags != 1 {
        return Err(AssembleError::UnsupportedModule);
    }
    let (min, p1) = match leb_read_exact(b, pos + 1) {
        Some(x) => x,
        None => {
            return Err(AssembleError::UnsupportedModule);
        },
    };
    if min > u32::MAX as u64 {
        return Err(AssembleError::UnsupportedModule);
    }
    if flags == 0 {
        if p1 != end {
            return Err(AssembleError::UnsupportedModule);
        }
        proof {
            assert(b@.subrange(start as int, end as int) =~= sec_body(
                Section::Memory(min as u32, None),
            )) by {
                assert(b@.subrange(start as int, start as int + 1) =~= leb_u64(1));
                assert(b@[pos as int] == 0);
                assert(b@.subrange(pos as int + 1, p1 as int) == leb_u64(min as nat));
            }
        }
        return Ok((min as u32, None));
    }
    let (mx, p2) = match leb_read_exact(b, p1) {
        Some(x) => x,
        None => {
            return Err(AssembleError::UnsupportedModule);
        },
    };
    if mx > u32::MAX as u64 {
        return Err(AssembleError::UnsupportedModule);
    }
    if p2 != end {
        return Err(AssembleError::UnsupportedModule);
    }
    proof {
        assert(b@.subrange(start as int, end as int) =~= sec_body(
            Section::Memory(min as u32, Some(mx as u32)),
        )) by {
            assert(b@.subrange(start as int, start as int + 1) =~= leb_u64(1));
            assert(b@[pos as int] == 1);
            assert(b@.subrange(pos as int + 1, p1 as int) == leb_u64(min as nat));
            assert(b@.subrange(p1 as int, p2 as int) == leb_u64(mx as nat));
        }
    }
    Ok((min as u32, Some(mx as u32)))
}

/// The export entries parsed from `p`: each export's name and index, for
/// `n` entries, with the end position.  The export kind byte is skipped and
/// not modeled; the sentinel resolution matches on names alone.
pub open spec fn dec_exports(b: Seq<u8>, p: int, n: nat) -> Option<(Seq<(Seq<u8>, u64)>, int)>
    decreases n,
{
    if n == 0 {
        Some((Seq::empty(), p))
    } else if p < 0 {
        None
    } else {
        match leb_parse(b, p) {
            None => None,
            Some((nl, l)) => {
                let q = p + l;
                if q + nl + 1 > b.len() {
                    None
                } else {
                    match leb_parse(b, q + nl + 1) {
                        None => None,
                        Some((idx, l2)) => match dec_exports(b, q + nl + 1 + l2, (n - 1) as nat) {
                            None => None,
                            Some((rest, endp)) => Some(
                                (seq![(b.subrange(q, q + nl), idx as u64)] + rest, endp),
                            ),
                        },
                    }
                }
            },
        }
    }
}

/// The index of the last export named `name`, if any.
pub open spec fn last_export(entries: Seq<(Seq<u8>, u64)>, name: Seq<u8>) -> Option<u64>
    decreases entries.len(),
{
    if entries.len() == 0 {
        None
    } else if entries.last().0 == name {
        Some(entries.last().1)
    } else {
        last_export(entries.drop_last(), name)
    }
}

proof fn lemma_last_export_push(entries: Seq<(Seq<u8>, u64)>, e: (Seq<u8>, u64), name: Seq<u8>)
    ensures
        last_export(entries.push(e), name) == (if e.0 == name {
            Some(e.1)
        } else {
            last_export(entries, name)
        }),
{
    assert(entries.push(e).last() == e);
    assert(entries.push(e).drop_last() =~= entries);
}

/// The export entries of a whole export-section body, or `None` when the
/// body does not parse exactly.
pub open spec fn export_reading(body: Seq<u8>) -> Option<Seq<(Seq<u8>, u64)>> {
    match leb_parse(body, 0) {
        None => None,
        Some(c) => match dec_exports(body, c.1, c.0) {
            None => None,
            Some((es, end)) => if end == body.len() {
                Some(es)
            } else {
                None
            },
        },
    }
}

/// Scan an export-section body for the two sentinel globals, returning the
/// export indices the last `INDEX_BASE` and `INDEX_LEN` exports name.
fn parse_export_section(b: &Vec<u8>) -> (r: Result<(Option<u32>, Option<u32>), AssembleError>)
    ensures
        r matches Ok(x) ==> export_reading(b@) matches Some(es) && (forall|t: int|
            0 <= t < es.len() ==> (#[trigger] es[t]).1 <= u32::MAX) && x.0 == (
        match last_export(es, encode_utf8("INDEX_BASE"@)) {
            Some(v) => Some(v as u32),
            None => None::<u32>,
        }) && x.1 == (match last_export(es, encode_utf8("INDEX_LEN"@)) {
            Some(v) => Some(v as u32),
            None => None::<u32>,
        }),
        r matches Err(e) ==> e == AssembleError::UnsupportedModule,
{
    let blen: usize = b.len();
    let end = blen;
    let base_name = vstd::slice::slice_to_vec("INDEX_BASE".as_bytes());
    let len_name = vstd::slice::slice_to_vec("INDEX_LEN".as_bytes());
    if crate::order::bytes_eq(&base_name, &len_name) {
        return Err(AssembleError::UnsupportedModule);
    }
    let (count, pos0) = match leb_read(b, 0) {
        Some(x) => x,
        None => {
            return Err(AssembleError::UnsupportedModule);
        },
    };
    let mut pos = pos0;
    let mut base_idx: Option<u32> = None;
    let mut len_idx: Option<u32> = None;
    let ghost mut ents: Seq<(Seq<u8>, u64)> = Seq::empty();
    let mut i: u64 = 0;
    proof {
        if dec_exports(b@, pos as int, count as nat) is Some {
            let (rest, q) = dec_exports(b@, pos as int, count as nat).unwrap();
            assert(ents + rest =~= rest);
        }
    }
    while i < count
        invariant
            pos <= b@.len(),
            b@.len() == blen,
            0 <= i <= count,
            base_name@ == encode_utf8("INDEX_BASE"@),
            len_name@ == encode_utf8("INDEX_LEN"@),
            base_name@ != len_name@,
            dec_exports(b@, pos0 as int, count as nat) == (match dec_exports(
                b@,
                pos as int,
                (count - i) as nat,
            ) {
                Some((rest, q)) => Some((ents + rest, q)),
                None => None::<(Seq<(Seq<u8>, u64)>, int)>,
            }),
            forall|t: int| 0 <= t < ents.len() ==> (#[trigger] ents[t]).1 <= u32::MAX,
            base_idx == (match last_export(ents, encode_utf8("INDEX_BASE"@)) {
                Some(v) => Some(v as u32),
                None => None::<u32>,
            }),
            len_idx == (match last_export(ents, encode_utf8("INDEX_LEN"@)) {
                Some(v) => Some(v as u32),
                None => None::<u32>,
            }),
        decreases count - i,
    {
        let (nlen, p1) = match leb_read(b, pos) {
            Some(x) => x,
            None => {
                return Err(AssembleError::UnsupportedModule);
            },
        };
        if nlen > (blen - p1) as u64 {
            return Err(AssembleError::UnsupportedModule);
        }
        let p2 = p1 + nlen as usize;
        let name = copy_range(b, p1, p2);
        if p2 >= blen {
            return Err(AssembleError::UnsupportedModule);
        }
        let (idx, p3) = match leb_read(b, p2 + 1) {
            Some(x) => x,
            None => {
                return Err(AssembleError::UnsupportedModule);
            },
        };
        if idx > u32::MAX as u64 {
            return Err(AssembleError::UnsupportedModule);
        }
        let ghost e = (b@.subrange(p1 as int, p2 as int), idx);
        let ghost prev = ents;
        proof {
            lemma_last_export_push(prev, e, encode_utf8("INDEX_BASE"@));
            lemma_last_export_push(prev, e, encode_utf8("INDEX_LEN"@));
            let rest_opt = dec_exports(b@, p3 as int, (count - i - 1) as nat);
            if rest_opt is Some {
                let (rest, q) = rest_opt.unwrap();
                assert(prev + (seq![e] + rest) =~= prev.push(e) + rest);
            }
        }
        if crate::order::bytes_eq(&name, &base_name) {
            base_idx = Some(idx as u32);
        } else if crate::order::bytes_eq(&name, &len_name) {
            len_idx = Some(idx as u32);
        }
        proof {
            ents = ents.push(e);
        }
        pos = p3;
        i = i + 1;
    }
    if pos != end {
        return Err(AssembleError::UnsupportedModule);
    }
    proof {
        assert(dec_exports(b@, pos as int, 0) == Some((Seq::<(Seq<u8>, u64)>::empty(), pos as int)));
        assert(ents + Seq::<(Seq<u8>, u64)>::empty() =~= ents);
    }
    Ok((base_idx, len_idx))
}

/// The global entries parsed from `p`/// The global entries parsed from `p`: for each of `n` globals its value
/// when the initializer is a single 32-bit constant, with the end position.
pub open spec fn dec_globals(b: Seq<u8>, p: int, n: nat) -> Option<(Seq<Option<i32>>, int)>
    decreases n,
{
    if n == 0 {
        Some((Seq::empty(), p))
    } else if p < 0 || p + 2 > b.len() {
        None
    } else if b[p + 1] != 0 && b[p + 1] != 1 {
        None
    } else {
        match dec_expr(b, p + 2) {
            None => None,
            Some((e, v)) => match dec_globals(b, e, (n - 1) as nat) {
                None => None,
                Some((rest, q)) => Some((seq![v] + rest, q)),
            },
        }
    }
}

/// The global entries of a whole global-section body, or `None` when the
/// body does not parse exactly.
pub open spec fn globals_reading(body: Seq<u8>) -> Option<Seq<Option<i32>>> {
    match leb_parse(body, 0) {
        None => None,
        Some(c) => match dec_globals(body, c.1, c.0) {
            None => None,
            Some((gs, end)) => if end == body.len() {
                Some(gs)
            } else {
                None
            },
        },
    }
}

/// Parse a global-section body, recording each global's value when its
/// initializer is a single 32-bit constant.
fn parse_global_section(b: &Vec<u8>) -> (r: Result<Vec<Option<i32>>, AssembleError>)
    ensures
        r matches Ok(g) ==> globals_reading(b@) == Some(g@),
        r matches Err(e) ==> e == AssembleError::UnsupportedModule,
{
    let blen: usize = b.len();
    let end = blen;
    let (count, pos0) = match leb_read(b, 0) {
        Some(x) => x,
        None => {
            return Err(AssembleError::UnsupportedModule);
        },
    };
    let mut pos = pos0;
    let mut globals: Vec<Option<i32>> = Vec::new();
    let mut i: u64 = 0;
    proof {
        if dec_globals(b@, pos as int, count as nat) is Some {
            let (rest, q) = dec_globals(b@, pos as int, count as nat).unwrap();
            assert(globals@ + rest =~= rest);
        }
    }
    while i < count
        invariant
            pos <= b@.len(),
            b@.len() == blen,
            0 <= i <= count,
            dec_globals(b@, pos0 as int, count as nat) == (match dec_globals(
                b@,
                pos as int,
                (count - i) as nat,
            ) {
                Some((rest, q)) => Some((globals@ + rest, q)),
                None => None::<(Seq<Option<i32>>, int)>,
            }),
        decreases count - i,
    {
        if pos >= blen || blen - pos < 2 {
            return Err(AssembleError::UnsupportedModule);
        }
        let mt = b[pos + 1];
        if mt != 0 && mt != 1 {
            return Err(AssembleError::UnsupportedModule);
        }
        match parse_expr(b, pos + 2) {
            Some((e, v)) => {
                let ghost prev = globals@;
                globals.push(v);
                proof {
                    let rest_opt = dec_globals(b@, e as int, (count - i - 1) as nat);
                    if rest_opt is Some {
                        let (rest, q) = rest_opt.unwrap();
                        assert(prev + (seq![v] + rest) =~= globals@ + rest);
                    }
                }
                pos = e;
            },
            None => {
                return Err(AssembleError::UnsupportedModule);
            },
        }
        i = i + 1;
    }
    if pos != end {
        return Err(AssembleError::UnsupportedModule);
    }
    proof {
        assert(dec_globals(b@, pos as int, 0) == Some((Seq::<Option<i32>>::empty(), pos as int)));
        assert(globals@ + Seq::<Option<i32>>::empty() =~= globals@);
    }
    Ok(globals)
}

/// One parsed section extends the byte coverage/// One parsed section extends the byte coverage: if the bytes up to `pos`
/// encode the sections so far, and `[pos, body_end)` holds one section's id,
/// canonical size, and body, the coverage extends to `body_end`.
proof fn lemma_parse_step(
    b: Seq<u8>,
    pos: int,
    body_start: int,
    body_end: int,
    size: nat,
    prev: Seq<Section>,
    sec: Section,
)
    requires
        0 <= pos,
        pos + 1 <= body_start <= body_end <= b.len(),
        b.subrange(0, pos) == module_magic() + secs_bytes(prev),
        b[pos] == sec_id(sec),
        b.subrange(pos + 1, body_start) == leb_u64(size),
        body_end - body_start == size,
        b.subrange(body_start, body_end) == sec_body(sec),
    ensures
        b.subrange(0, body_end) == module_magic() + secs_bytes(prev.push(sec)),
{
    lemma_secs_bytes_push(prev, sec);
    assert(sec_body(sec).len() == size);
    assert(b.subrange(pos, pos + 1) =~= seq![sec_id(sec)]);
    assert(b.subrange(0, body_end) =~= b.subrange(0, pos) + b.subrange(pos, pos + 1) + b.subrange(
        pos + 1,
        body_start,
    ) + b.subrange(body_start, body_end));
    assert(b.subrange(0, body_end) =~= module_magic() + secs_bytes(prev.push(sec)));
}

/// Whether sections `ke` (an export section) and `kg` (a global section) of
/// `ss` resolve the sentinels to the given addresses: the last exports named
/// `INDEX_BASE` and `INDEX_LEN` point at globals whose initializers are the
/// 32-bit constants `base_addr` and `len_addr`.
pub open spec fn sentinel_sections_at(
    ss: Seq<Section>,
    ke: int,
    kg: int,
    base_addr: i32,
    len_addr: i32,
) -> bool {
    &&& 0 <= ke < ss.len() && ss[ke] is Raw && ss[ke]->Raw_0 == 7
    &&& 0 <= kg < ss.len() && ss[kg] is Raw && ss[kg]->Raw_0 == 6
    &&& export_reading(ss[ke]->Raw_1@) matches Some(es) && globals_reading(ss[kg]->Raw_1@)
        matches Some(gs) && last_export(es, encode_utf8("INDEX_BASE"@)) matches Some(bi)
        && last_export(es, encode_utf8("INDEX_LEN"@)) matches Some(li) && bi < gs.len() && gs[bi as int]
        == Some(base_addr) && li < gs.len() && gs[li as int] == Some(len_addr)
}

/// Whether some export and global section of `ss` resolve the sentinels to
/// some pair of addresses.
pub open spec fn sentinels_resolvable(ss: Seq<Section>) -> bool {
    exists|ke: int, kg: int, a: i32, l: i32| sentinel_sections_at(ss, ke, kg, a, l)
}

/// What a successful parse returns: sections that re-encode to the input
/// exactly, with the sentinel addresses resolved by an export and a global
/// section of that reading.
pub open spec fn parse_ok_post(bytes: Seq<u8>, m: ParsedModule) -> bool {
    &&& module_bytes(m.sections@) == bytes
    &&& (exists|ke: int, kg: int|
        sentinel_sections_at(m.sections@, ke, kg, m.base_addr, m.len_addr))
}

/// Some reading of the bytes covers them exactly and resolves no sentinels.
pub open spec fn sentinel_free(bytes: Seq<u8>) -> bool {
    exists|ss: Seq<Section>| #[trigger] module_bytes(ss) == bytes && !sentinels_resolvable(ss)
}

/// Parse a module section by section, collecting the sentinel addresses.
/// On success the parsed sections cover the input exactly (re-encoding them
/// reproduces the given bytes) and the sentinel addresses come from an
/// export and a global section of the module; a missing-sentinel failure
/// means no sections of the parsed reading resolve them.
#[verifier::rlimit(100)]
pub fn parse_module(bytes: &Vec<u8>) -> (r: Result<ParsedModule, AssembleError>)
    ensures
        r matches Ok(m) ==> parse_ok_post(bytes@, m),
        r matches Err(e) && e == AssembleError::MissingSentinel ==> sentinel_free(bytes@),
{
    let blen: usize = bytes.len();
    if blen < 8 {
        return Err(AssembleError::UnsupportedModule);
    }
    if bytes[0] != 0 || bytes[1] != 0x61 || bytes[2] != 0x73 || bytes[3] != 0x6D || bytes[4] != 1
        || bytes[5] != 0 || bytes[6] != 0 || bytes[7] != 0 {
        return Err(AssembleError::UnsupportedModule);
    }
    let mut sections: Vec<Section> = Vec::new();
    let mut old_pages: u32 = 0;
    let mut base_idx: Option<u32> = None;
    let mut len_idx: Option<u32> = None;
    let mut globals: Vec<Option<i32>> = Vec::new();
    let mut seen_exports = false;
    let mut seen_globals = false;
    let ghost mut kexp: Option<int> = None;
    let ghost mut kglob: Option<int> = None;
    let mut pos: usize = 8;
    proof {
        assert(bytes@.subrange(0, 8) =~= module_magic());
        assert(secs_bytes(sections@) =~= Seq::<u8>::empty());
        assert(bytes@.subrange(0, pos as int) =~= module_magic() + secs_bytes(sections@));
    }
    while pos < blen
        invariant
            8 <= pos <= bytes@.len(),
            blen == bytes@.len(),
            bytes@.subrange(0, pos as int) == module_magic() + secs_bytes(sections@),
            seen_exports == (kexp is Some),
            seen_globals == (kglob is Some),
            kexp is None ==> base_idx is None && len_idx is None && (forall|k: int|
                0 <= k < sections@.len() ==> !((#[trigger] sections@[k]) is Raw
                    && sections@[k]->Raw_0 == 7)),
            kexp matches Some(ke) ==> 0 <= ke < sections@.len() && sections@[ke] is Raw
                && sections@[ke]->Raw_0 == 7 && (forall|k: int|
                0 <= k < sections@.len() && k != ke ==> !((#[trigger] sections@[k]) is Raw
                    && sections@[k]->Raw_0 == 7)) && (export_reading(sections@[ke]->Raw_1@)
                matches Some(es) && (forall|t: int|
                0 <= t < es.len() ==> (#[trigger] es[t]).1 <= u32::MAX) && base_idx == (
            match last_export(es, encode_utf8("INDEX_BASE"@)) {
                Some(v) => Some(v as u32),
                None => None::<u32>,
            }) && len_idx == (match last_export(es, encode_utf8("INDEX_LEN"@)) {
                Some(v) => Some(v as u32),
                None => None::<u32>,
            })),
            kglob is None ==> globals@ == Seq::<Option<i32>>::empty() && (forall|k: int|
                0 <= k < sections@.len() ==> !((#[trigger] sections@[k]) is Raw
                    && sections@[k]->Raw_0 == 6)),
            kglob matches Some(kg) ==> 0 <= kg < sections@.len() && sections@[kg] is Raw
                && sections@[kg]->Raw_0 == 6 && (forall|k: int|
                0 <= k < sections@.len() && k != kg ==> !((#[trigger] sections@[k]) is Raw
                    && sections@[k]->Raw_0 == 6)) && globals_reading(sections@[kg]->Raw_1@)
                == Some(globals@),
        decreases bytes@.len() - pos,
    {
        let id = bytes[pos];
        let (size, body_start) = match leb_read_exact(bytes, pos + 1) {
            Some(x) => x,
            None => {
                return Err(AssembleError::UnsupportedModule);
            },
        };
        if size > (blen - body_start) as u64 {
            return Err(AssembleError::UnsupportedModule);
        }
        let body_end = body_start + size as usize;
        let ghost prev_secs = sections@;
        if id == 5 {
            let mem = match parse_memory_section(bytes, body_start, body_end) {
                Ok(p) => p,
                Err(e) => {
                    return Err(e);
                },
            };
            old_pages = mem.0;
            sections.push(Section::Memory(mem.0, mem.1));
            proof {
                lemma_parse_step(
                    bytes@,
                    pos as int,
                    body_start as int,
                    body_end as int,
                    size as nat,
                    prev_secs,
                    Section::Memory(mem.0, mem.1),
                );
            }
        } else if id == 11 {
            match parse_data_section(bytes, body_start, body_end) {
                Ok(segs) => {
                    let ghost sv = segs@;
                    sections.push(Section::Data(segs));
                    proof {
                        assert(sections@.last() is Data && sections@.last()->Data_0@ == sv);
                        assert(sec_body(sections@.last()) == leb_u64(sv.len()) + segs_bytes(sv));
                        lemma_parse_step(
                            bytes@,
                            pos as int,
                            body_start as int,
                            body_end as int,
                            size as nat,
                            prev_secs,
                            sections@.last(),
                        );
                        assert(sections@ =~= prev_secs.push(sections@.last()));
                    }
                },
                Err(e) => {
                    return Err(e);
                },
            }
        } else if id == 12 {
            let (c, p1) = match leb_read_exact(bytes, body_start) {
                Some(x) => x,
                None => {
                    return Err(AssembleError::UnsupportedModule);
                },
            };
            if c > u32::MAX as u64 || p1 != body_end {
                return Err(AssembleError::UnsupportedModule);
            }
            sections.push(Section::DataCount(c as u32));
            proof {
                lemma_parse_step(
                    bytes@,
                    pos as int,
                    body_start as int,
                    body_end as int,
                    size as nat,
                    prev_secs,
                    Section::DataCount(c as u32),
                );
            }
        } else {
            let body = copy_range(bytes, body_start, body_end);
            if id == 7 {
                if seen_exports {
                    return Err(AssembleError::UnsupportedModule);
                }
                seen_exports = true;
                match parse_export_section(&body) {
                    Ok((b0, l0)) => {
                        base_idx = b0;
                        len_idx = l0;
                    },
                    Err(e) => {
                        return Err(e);
                    },
                }
                proof {
                    kexp = Some(sections@.len() as int);
                }
            } else if id == 6 {
                if seen_globals {
                    return Err(AssembleError::UnsupportedModule);
                }
                seen_globals = true;
                match parse_global_section(&body) {
                    Ok(g) => {
                        globals = g;
                    },
                    Err(e) => {
                        return Err(e);
                    },
                }
                proof {
                    kglob = Some(sections@.len() as int);
                }
            }
            sections.push(Section::Raw(id, body));
            proof {
                assert(sections@.last() is Raw && sec_id(sections@.last()) == id && sec_body(
                    sections@.last(),
                ) == bytes@.subrange(body_start as int, body_end as int));
                lemma_parse_step(
                    bytes@,
                    pos as int,
                    body_start as int,
                    body_end as int,
                    size as nat,
                    prev_secs,
                    sections@.last(),
                );
                assert(sections@ =~= prev_secs.push(sections@.last()));
            }
        }
        pos = body_end;
    }
    proof {
        assert(bytes@.subrange(0, blen as int) =~= bytes@);
        assert(module_bytes(sections@) == bytes@);
    }
    let bi = match base_idx {
        Some(v) => v,
        None => {
            proof {
                lemma_unresolvable(sections@, kexp, kglob, base_idx, len_idx, globals@);
                assert(sentinel_free(bytes@)) by {
                    assert(module_bytes(sections@) == bytes@ && !sentinels_resolvable(
                        sections@,
                    ));
                }
            }
            return Err(AssembleError::MissingSentinel);
        },
    };
    let li = match len_idx {
        Some(v) => v,
        None => {
            proof {
                lemma_unresolvable(sections@, kexp, kglob, base_idx, len_idx, globals@);
                assert(sentinel_free(bytes@)) by {
                    assert(module_bytes(sections@) == bytes@ && !sentinels_resolvable(
                        sections@,
                    ));
                }
            }
            return Err(AssembleError::MissingSentinel);
        },
    };
    if bi as usize >= globals.len() || li as usize >= globals.len() {
        proof {
            lemma_unresolvable(sections@, kexp, kglob, base_idx, len_idx, globals@);
            assert(sentinel_free(bytes@)) by {
                assert(module_bytes(sections@) == bytes@ && !sentinels_resolvable(sections@));
            }
        }
        return Err(AssembleError::MissingSentinel);
    }
    let base_addr = match globals[bi as usize] {
        Some(v) => v,
        None => {
            proof {
                lemma_unresolvable(sections@, kexp, kglob, base_idx, len_idx, globals@);
                assert(sentinel_free(bytes@)) by {
                    assert(module_bytes(sections@) == bytes@ && !sentinels_resolvable(
                        sections@,
                    ));
                }
            }
            return Err(AssembleError::MissingSentinel);
        },
    };
    let len_addr = match globals[li as usize] {
        Some(v) => v,
        None => {
            proof {
                lemma_unresolvable(sections@, kexp, kglob, base_idx, len_idx, globals@);
                assert(sentinel_free(bytes@)) by {
                    assert(module_bytes(sections@) == bytes@ && !sentinels_resolvable(
                        sections@,
                    ));
                }
            }
            return Err(AssembleError::MissingSentinel);
        },
    };
    let m = ParsedModule { sections, old_pages, base_addr, len_addr };
    proof {
        assert(globals@.len() > 0);
        assert(kglob is Some && kexp is Some);
        let ke = kexp.unwrap();
        let kg = kglob.unwrap();
        let sections = m.sections;
        let es = export_reading(sections@[ke]->Raw_1@).unwrap();
        let gs = globals_reading(sections@[kg]->Raw_1@).unwrap();
        assert(gs == globals@);
        assert(last_export(es, encode_utf8("INDEX_BASE"@)) is Some);
        assert(last_export(es, encode_utf8("INDEX_LEN"@)) is Some);
        let vb = last_export(es, encode_utf8("INDEX_BASE"@)).unwrap();
        let vl = last_export(es, encode_utf8("INDEX_LEN"@)).unwrap();
        lemma_last_export_in(es, encode_utf8("INDEX_BASE"@));
        lemma_last_export_in(es, encode_utf8("INDEX_LEN"@));
        assert(vb <= u32::MAX && vl <= u32::MAX);
        assert(vb as u32 == bi && vl as u32 == li);
        assert(vb == bi as u64 && vl == li as u64);
        assert(vb < gs.len() && gs[vb as int] == Some(base_addr));
        assert(vl < gs.len() && gs[vl as int] == Some(len_addr));
        assert(sentinel_sections_at(m.sections@, ke, kg, m.base_addr, m.len_addr));
        assert(parse_ok_post(bytes@, m)) by {
            assert(module_bytes(m.sections@) == bytes@);
            assert(sentinel_sections_at(m.sections@, ke, kg, m.base_addr, m.len_addr));
        }
    }
    Ok(m)
}

/// When the resolution of the sentinel exports fails, no pair of sections
/// of the parsed reading resolves them: the tracked export and global
/// sections are the only candidates, and their readings gave exactly the
/// failed lookups.
proof fn lemma_unresolvable(
    ss: Seq<Section>,
    kexp: Option<int>,
    kglob: Option<int>,
    base_idx: Option<u32>,
    len_idx: Option<u32>,
    globals: Seq<Option<i32>>,
)
    requires
        kexp is None ==> base_idx is None && len_idx is None && (forall|k: int|
            0 <= k < ss.len() ==> !((#[trigger] ss[k]) is Raw && ss[k]->Raw_0 == 7)),
        kexp matches Some(ke) ==> 0 <= ke < ss.len() && (forall|k: int|
            0 <= k < ss.len() && k != ke ==> !((#[trigger] ss[k]) is Raw && ss[k]->Raw_0 == 7))
            && (export_reading(ss[ke]->Raw_1@) matches Some(es) && (forall|t: int|
            0 <= t < es.len() ==> (#[trigger] es[t]).1 <= u32::MAX) && base_idx == (
        match last_export(es, encode_utf8("INDEX_BASE"@)) {
            Some(v) => Some(v as u32),
            None => None::<u32>,
        }) && len_idx == (match last_export(es, encode_utf8("INDEX_LEN"@)) {
            Some(v) => Some(v as u32),
            None => None::<u32>,
        })),
        kglob is None ==> globals == Seq::<Option<i32>>::empty() && (forall|k: int|
            0 <= k < ss.len() ==> !((#[trigger] ss[k]) is Raw && ss[k]->Raw_0 == 6)),
        kglob matches Some(kg) ==> 0 <= kg < ss.len() && (forall|k: int|
            0 <= k < ss.len() && k != kg ==> !((#[trigger] ss[k]) is Raw && ss[k]->Raw_0 == 6))
            && globals_reading(ss[kg]->Raw_1@) == Some(globals),
        base_idx is None || len_idx is None || (base_idx matches Some(b) && b >= globals.len())
            || (len_idx matches Some(l) && l >= globals.len()) || (base_idx matches Some(b)
            && b < globals.len() && globals[b as int] is None) || (len_idx matches Some(l) && l
            < globals.len() && globals[l as int] is None),
    ensures
        !sentinels_resolvable(ss),
{
    if sentinels_resolvable(ss) {
        let (ke, kg, a, l) = choose|ke: int, kg: int, a: i32, l: i32|
            sentinel_sections_at(ss, ke, kg, a, l);
        assert(ss[ke] is Raw && ss[ke]->Raw_0 == 7);
        assert(kexp matches Some(k0) && k0 == ke);
        assert(ss[kg] is Raw && ss[kg]->Raw_0 == 6);
        assert(kglob matches Some(k1) && k1 == kg);
        let es = export_reading(ss[ke]->Raw_1@).unwrap();
        let gs = globals_reading(ss[kg]->Raw_1@).unwrap();
        assert(gs == globals);
        let bi = last_export(es, encode_utf8("INDEX_BASE"@)).unwrap();
        let li = last_export(es, encode_utf8("INDEX_LEN"@)).unwrap();
        assert(base_idx == Some(bi as u32) && len_idx == Some(li as u32));
        assert(bi <= u32::MAX && li <= u32::MAX) by {
            if last_export(es, encode_utf8("INDEX_BASE"@)) is Some {
                lemma_last_export_in(es, encode_utf8("INDEX_BASE"@));
            }
            if last_export(es, encode_utf8("INDEX_LEN"@)) is Some {
                lemma_last_export_in(es, encode_utf8("INDEX_LEN"@));
            }
        }
        assert(bi < gs.len() && gs[bi as int] == Some(a));
        assert(li < gs.len() && gs[li as int] == Some(l));
        assert(false);
    }
}

/// A resolved last export's index occurs among the entries.
proof fn lemma_last_export_in(entries: Seq<(Seq<u8>, u64)>, name: Seq<u8>)
    ensures
        last_export(entries, name) matches Some(v) ==> exists|t: int|
            0 <= t < entries.len() && (#[trigger] entries[t]).1 == v,
    decreases entries.len(),
{
    if entries.len() > 0 {
        if entries.last().0 == name {
            assert(entries[entries.len() - 1].1 == entries.last().1);
        } else {
            lemma_last_export_in(entries.drop_last(), name);
            if last_export(entries, name) is Some {
                let v = last_export(entries, name).unwrap();
                let t = choose|t: int|
                    0 <= t < entries.drop_last().len() && (#[trigger] entries.drop_last()[t]).1
                        == v;
                assert(entries[t].1 == v);
            }
        }
    }
}

/// How the assembled output relates to the input: some reading of the input
/// covers its bytes exactly, the output's sections are that reading patched
/// segment by segment, and the output is their re-encoding.
pub open spec fn assembled(module: Seq<u8>, raw_index: Seq<u8>, out: Seq<u8>) -> bool {
    exists|m: ParsedModule, patched: Seq<Section>|
        {
            let nb = new_page_count(m.old_pages, raw_index.len());
            let ib = wrap32(index_base_of(m.old_pages));
            &&& #[trigger] module_bytes(m.sections@) == module
            &&& #[trigger] module_bytes(patched) == out
            &&& nb <= u32::MAX
            &&& patched.len() == m.sections@.len()
            &&& (forall|k: int|
                0 <= k < m.sections@.len() ==> patched_sec(
                    m.sections@[k],
                    #[trigger] patched[k],
                    m.base_addr as int,
                    m.len_addr as int,
                    ib,
                    raw_index,
                    nb as u32,
                ))
            &&& some_seg_holds_base(m.sections@, m.base_addr as int)
        }
}

/// The input has a reading that covers it and resolves the sentinel
/// addresses, and the grown page count fits, yet the patch cannot proceed:
/// a segment holding a sentinel word is not patchable, or no segment holds
/// the base-pointer word.
pub open spec fn sentinel_unpatchable(module: Seq<u8>, raw_index: Seq<u8>) -> bool {
    exists|m: ParsedModule|
        #[trigger] parse_ok_post(module, m) && new_page_count(m.old_pages, raw_index.len())
            <= u32::MAX && (!(forall|k: int|
            0 <= k < m.sections@.len() ==> sec_ok(
                #[trigger] m.sections@[k],
                m.base_addr as int,
                m.len_addr as int,
            )) || !some_seg_holds_base(m.sections@, m.base_addr as int))
}

/// Assemble the output module: parse the input, patch the sentinel words,
/// append the serialized index as a new data segment, grow the memory, emit,
/// and validate the result.  A successful output is the re-encoding of the
/// input's sections with exactly the patch applied, and it validates.
pub fn assemble(module: &Vec<u8>, raw_index: &Vec<u8>) -> (r: Result<Vec<u8>, AssembleError>)
    ensures
        r matches Ok(out) ==> wasm_valid(out@) && assembled(module@, raw_index@, out@),
        r matches Err(e) && e == AssembleError::MissingSentinel ==> sentinel_free(module@)
            || sentinel_unpatchable(module@, raw_index@),
{
    let parsed = match parse_module(module) {
        Ok(m) => m,
        Err(e) => {
            return Err(e);
        },
    };
    let ghost gm = parsed;
    let patched = match patch_module(parsed, raw_index) {
        Ok(s) => s,
        Err(e) => {
            proof {
                if e == AssembleError::MissingSentinel {
                    assert(sentinel_unpatchable(module@, raw_index@)) by {
                        assert(parse_ok_post(module@, gm));
                    }
                }
            }
            return Err(e);
        },
    };
    let out = emit_module(&patched);
    if !validate_module(&out) {
        return Err(AssembleError::ModuleInvalid);
    }
    proof {
        assert(assembled(module@, raw_index@, out@)) by {
            let nb = new_page_count(gm.old_pages, raw_index@.len());
            let ib = wrap32(index_base_of(gm.old_pages));
            assert(module_bytes(gm.sections@) == module@);
            assert(patched@.len() == gm.sections@.len());
            assert(out@ == module_bytes(patched@));
        }
    }
    Ok(out)
}

} // verus!
