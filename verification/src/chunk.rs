use vstd::prelude::*;

use crate::bytes::{be32_bytes, be32_value, push_be32, read_be32};
use crate::error::CodecError;

verus! {

/// The four ASCII bytes of the IHDR tag.
pub open spec fn ihdr_tag() -> Seq<u8> {
    seq![0x49u8, 0x48u8, 0x44u8, 0x52u8]
}

/// The four ASCII bytes of the PLTE tag.
pub open spec fn plte_tag() -> Seq<u8> {
    seq![0x50u8, 0x4cu8, 0x54u8, 0x45u8]
}

/// The four ASCII bytes of the IDAT tag.
pub open spec fn idat_tag() -> Seq<u8> {
    seq![0x49u8, 0x44u8, 0x41u8, 0x54u8]
}

/// The four ASCII bytes of the IEND tag.
pub open spec fn iend_tag() -> Seq<u8> {
    seq![0x49u8, 0x45u8, 0x4eu8, 0x44u8]
}

/// The recognized chunk kinds; any other four-byte tag is kept verbatim.
pub enum ChunkType {
    IHDR,
    PLTE,
    IDAT,
    IEND,
    Other(Vec<u8>),
}

impl ChunkType {
    /// The four tag bytes this chunk type stands for.
    pub open spec fn tag(self) -> Seq<u8> {
        match self {
            ChunkType::IHDR => ihdr_tag(),
            ChunkType::PLTE => plte_tag(),
            ChunkType::IDAT => idat_tag(),
            ChunkType::IEND => iend_tag(),
            ChunkType::Other(v) => v@,
        }
    }

    /// An `Other` tag has exactly four bytes and is none of the known tags.
    pub open spec fn wf(self) -> bool {
        match self {
            ChunkType::Other(v) => {
                &&& v@.len() == 4
                &&& v@ != ihdr_tag()
                &&& v@ != plte_tag()
                &&& v@ != idat_tag()
                &&& v@ != iend_tag()
            },
            _ => true,
        }
    }

    pub fn is_iend(&self) -> (r: bool)
        ensures
            r == (self matches ChunkType::IEND),
    {
        match self {
            ChunkType::IEND => true,
            _ => false,
        }
    }

    pub fn is_ihdr(&self) -> (r: bool)
        ensures
            r == (self matches ChunkType::IHDR),
    {
        match self {
            ChunkType::IHDR => true,
            _ => false,
        }
    }

    pub fn is_idat(&self) -> (r: bool)
        ensures
            r == (self matches ChunkType::IDAT),
    {
        match self {
            ChunkType::IDAT => true,
            _ => false,
        }
    }
}

/// A well-formed chunk type is recognized exactly by its tag bytes.
pub proof fn lemma_tag_variant(ct: ChunkType)
    requires
        ct.wf(),
    ensures
        (ct.tag() == ihdr_tag()) <==> (ct matches ChunkType::IHDR),
        (ct.tag() == plte_tag()) <==> (ct matches ChunkType::PLTE),
        (ct.tag() == idat_tag()) <==> (ct matches ChunkType::IDAT),
        (ct.tag() == iend_tag()) <==> (ct matches ChunkType::IEND),
{
    assert(ihdr_tag()[0] == 0x49u8 && ihdr_tag()[1] == 0x48u8);
    assert(plte_tag()[0] == 0x50u8 && plte_tag()[1] == 0x4cu8);
    assert(idat_tag()[0] == 0x49u8 && idat_tag()[1] == 0x44u8);
    assert(iend_tag()[0] == 0x49u8 && iend_tag()[1] == 0x45u8);
}

/// The mathematical content of one chunk: its declared length, tag bytes,
/// payload bytes and stored checksum.
#[verifier::ext_equal]
pub struct ChunkModel {
    pub length: u32,
    pub tag: Seq<u8>,
    pub data: Seq<u8>,
    pub crc: u32,
}

/// One chunk of a PNG file.
pub struct Chunk {
    pub length: u32,
    pub chunk_type: ChunkType,
    pub data: Vec<u8>,
    pub crc: u32,
}

impl Chunk {
    pub open spec fn model(self) -> ChunkModel {
        ChunkModel {
            length: self.length,
            tag: self.chunk_type.tag(),
            data: self.data@,
            crc: self.crc,
        }
    }

    /// The declared length matches the payload and the tag is sound.
    pub open spec fn wf(self) -> bool {
        &&& self.length == self.data@.len()
        &&& self.chunk_type.wf()
    }
}

/// The on-wire bytes of a chunk: big-endian length, four tag bytes, the
/// payload, then the big-endian CRC.
pub open spec fn model_bytes(m: ChunkModel) -> Seq<u8> {
    be32_bytes(m.length) + m.tag + m.data + be32_bytes(m.crc)
}

/// The declared length matches the payload and the tag has four bytes.
pub open spec fn model_wf(m: ChunkModel) -> bool {
    &&& m.tag.len() == 4
    &&& m.length == m.data.len()
}

pub open spec fn chunk_bytes(c: Chunk) -> Seq<u8> {
    model_bytes(c.model())
}

/// The big-endian 32-bit value stored at `off`.
pub open spec fn be32_at(data: Seq<u8>, off: int) -> u32 {
    be32_value(data[off], data[off + 1], data[off + 2], data[off + 3])
}

/// Whether a whole chunk record lies at `off`: room for the fixed twelve
/// bytes and for the payload the length field declares.
pub open spec fn chunk_parse_ok(data: Seq<u8>, off: int) -> bool {
    &&& off + 12 <= data.len()
    &&& off + 12 + be32_at(data, off) <= data.len()
}

/// The offset just past the chunk record at `off`.
pub open spec fn chunk_end(data: Seq<u8>, off: int) -> int {
    off + 12 + be32_at(data, off)
}

/// The chunk record stored at `off`.
pub open spec fn chunk_at(data: Seq<u8>, off: int) -> ChunkModel {
    ChunkModel {
        length: be32_at(data, off),
        tag: data.subrange(off + 4, off + 8),
        data: data.subrange(off + 8, off + 8 + be32_at(data, off)),
        crc: be32_at(data, off + 8 + be32_at(data, off)),
    }
}

impl Chunk {
    /// Reads the chunk record at `off`; fails with `ShortChunk` when the
    /// stream ends before the record does.
    pub fn read(data: &Vec<u8>, off: usize) -> (r: Result<(Chunk, usize), CodecError>)
        requires
            off <= data@.len(),
        ensures
            match r {
                Ok(p) => {
                    &&& chunk_parse_ok(data@, off as int)
                    &&& p.1 == chunk_end(data@, off as int)
                    &&& p.0.wf()
                    &&& p.0.model() == chunk_at(data@, off as int)
                },
                Err(e) => {
                    &&& e == CodecError::ShortChunk
                    &&& !chunk_parse_ok(data@, off as int)
                },
            },
    {
        let n = data.len();
        if n - off < 12 {
            return Err(CodecError::ShortChunk);
        }
        let length = read_be32(data, off);
        if (length as usize) > n - off - 12 {
            return Err(CodecError::ShortChunk);
        }
        let len = length as usize;

        let t0 = data[off + 4];
        let t1 = data[off + 5];
        let t2 = data[off + 6];
        let t3 = data[off + 7];
        let ghost tag_seq = data@.subrange(off + 4, off + 8);
        proof {
            assert(tag_seq =~= seq![t0, t1, t2, t3]);
        }
        let chunk_type: ChunkType = if t0 == 0x49 && t1 == 0x48 && t2 == 0x44 && t3 == 0x52 {
            proof {
                assert(tag_seq =~= ihdr_tag());
            }
            ChunkType::IHDR
        } else if t0 == 0x50 && t1 == 0x4c && t2 == 0x54 && t3 == 0x45 {
            proof {
                assert(tag_seq =~= plte_tag());
            }
            ChunkType::PLTE
        } else if t0 == 0x49 && t1 == 0x44 && t2 == 0x41 && t3 == 0x54 {
            proof {
                assert(tag_seq =~= idat_tag());
            }
            ChunkType::IDAT
        } else if t0 == 0x49 && t1 == 0x45 && t2 == 0x4e && t3 == 0x44 {
            proof {
                assert(tag_seq =~= iend_tag());
            }
            ChunkType::IEND
        } else {
            let mut v: Vec<u8> = Vec::new();
            v.push(t0);
            v.push(t1);
            v.push(t2);
            v.push(t3);
            proof {
                assert(v@ =~= tag_seq);
                assert(v@ != ihdr_tag() && v@ != plte_tag() && v@ != idat_tag() && v@
                    != iend_tag());
            }
            ChunkType::Other(v)
        };

        let payload = vstd::slice::slice_to_vec(
            vstd::slice::slice_subrange(data.as_slice(), off + 8, off + 8 + len),
        );
        let crc = read_be32(data, off + 8 + len);
        let c = Chunk { length, chunk_type, data: payload, crc };
        proof {
            assert(c.model() =~= chunk_at(data@, off as int));
        }
        Ok((c, off + 12 + len))
    }

    /// Appends the on-wire bytes of this chunk. The CRC field is written
    /// verbatim; the declared length must match the payload and the tag must
    /// have four bytes.
    pub fn write(&self, out: &mut Vec<u8>)
        requires
            self.wf(),
        ensures
            final(out)@ == old(out)@ + chunk_bytes(*self),
    {
        let ghost out0 = out@;
        push_be32(out, self.length);
        match &self.chunk_type {
            ChunkType::IHDR => {
                out.push(0x49);
                out.push(0x48);
                out.push(0x44);
                out.push(0x52);
            },
            ChunkType::PLTE => {
                out.push(0x50);
                out.push(0x4c);
                out.push(0x54);
                out.push(0x45);
            },
            ChunkType::IDAT => {
                out.push(0x49);
                out.push(0x44);
                out.push(0x41);
                out.push(0x54);
            },
            ChunkType::IEND => {
                out.push(0x49);
                out.push(0x45);
                out.push(0x4e);
                out.push(0x44);
            },
            ChunkType::Other(v) => {
                out.push(v[0]);
                out.push(v[1]);
                out.push(v[2]);
                out.push(v[3]);
            },
        }
        let ghost mid = out@;
        proof {
            assert(mid =~= out0 + be32_bytes(self.length) + self.chunk_type.tag());
            assert(out@ =~= mid + self.data@.subrange(0, 0));
        }
        let mut i: usize = 0;
        while i < self.data.len()
            invariant
                i <= self.data@.len(),
                out@ == mid + self.data@.subrange(0, i as int),
            decreases self.data@.len() - i,
        {
            out.push(self.data[i]);
            i = i + 1;
            proof {
                assert(out@ =~= mid + self.data@.subrange(0, i as int));
            }
        }
        proof {
            assert(self.data@.subrange(0, self.data@.len() as int) =~= self.data@);
        }
        push_be32(out, self.crc);
        proof {
            assert(out@ =~= out0 + chunk_bytes(*self));
        }
    }
}

} // verus!
