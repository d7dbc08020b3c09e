use vstd::prelude::*;

use crate::bytes::be32_bytes;
use crate::chunk::{
    be32_at, chunk_at, chunk_end, chunk_parse_ok, idat_tag, iend_tag, ihdr_tag, model_bytes,
    model_wf, plte_tag, Chunk, ChunkModel, ChunkType,
};
use crate::error::CodecError;

verus! {

/// The eight magic bytes every PNG file starts with.
pub open spec fn png_signature() -> Seq<u8> {
    seq![0x89u8, 0x50u8, 0x4eu8, 0x47u8, 0x0du8, 0x0au8, 0x1au8, 0x0au8]
}

/// The models of a sequence of chunks.
pub open spec fn chunk_models(cs: Seq<Chunk>) -> Seq<ChunkModel> {
    cs.map_values(|c: Chunk| c.model())
}

/// The concatenated on-wire bytes of a sequence of chunk models.
pub open spec fn models_bytes(ms: Seq<ChunkModel>) -> Seq<u8>
    decreases ms.len(),
{
    if ms.len() == 0 {
        Seq::empty()
    } else {
        models_bytes(ms.drop_last()) + model_bytes(ms.last())
    }
}

/// The concatenated on-wire bytes of a sequence of chunks.
pub open spec fn chunks_bytes(cs: Seq<Chunk>) -> Seq<u8> {
    models_bytes(chunk_models(cs))
}

/// The whole file: signature, then every chunk in order.
pub open spec fn png_file_bytes(cs: Seq<Chunk>) -> Seq<u8> {
    png_signature() + chunks_bytes(cs)
}

/// Parses chunk records from `off` up to and including the first IEND:
/// `None` when the stream ends before an IEND chunk is complete.
pub open spec fn parse_chunks(data: Seq<u8>, off: int) -> Option<Seq<ChunkModel>>
    decreases data.len() - off,
{
    if !chunk_parse_ok(data, off) {
        None
    } else {
        let m = chunk_at(data, off);
        if m.tag == iend_tag() {
            Some(seq![m])
        } else {
            match parse_chunks(data, chunk_end(data, off)) {
                None => None,
                Some(rest) => Some(seq![m] + rest),
            }
        }
    }
}

/// A PNG document: an ordered sequence of chunks.
pub struct PNG {
    pub chunks: Vec<Chunk>,
}

impl PNG {
    pub fn new() -> (png: PNG)
        ensures
            png.chunks@.len() == 0,
    {
        PNG { chunks: Vec::new() }
    }

    /// Parses a PNG file: the signature, then chunks up to and including the
    /// first IEND. Bytes after the IEND chunk are ignored.
    pub fn from_bytes(data: &Vec<u8>) -> (r: Result<PNG, CodecError>)
        ensures
            match r {
                Ok(png) => {
                    &&& data@.len() >= 8
                    &&& data@.subrange(0, 8) == png_signature()
                    &&& parse_chunks(data@, 8) == Some(chunk_models(png.chunks@))
                    &&& forall|i: int|
                        0 <= i < png.chunks@.len() ==> (#[trigger] png.chunks@[i]).wf()
                    &&& png.chunks@.len() >= 1
                    &&& forall|i: int|
                        0 <= i < png.chunks@.len() ==> ((chunk_models(png.chunks@)[i].tag
                            == iend_tag()) <==> i == png.chunks@.len() - 1)
                },
                Err(e) => {
                    ||| (e == CodecError::BadSignature && (data@.len() < 8 || data@.subrange(0, 8)
                        != png_signature()))
                    ||| (e == CodecError::ShortChunk && data@.len() >= 8 && data@.subrange(0, 8)
                        == png_signature() && parse_chunks(data@, 8) is None)
                },
            },
    {
        if data.len() < 8 {
            return Err(CodecError::BadSignature);
        }
        let s0 = data[0];
        let s1 = data[1];
        let s2 = data[2];
        let s3 = data[3];
        let s4 = data[4];
        let s5 = data[5];
        let s6 = data[6];
        let s7 = data[7];
        if !(s0 == 0x89 && s1 == 0x50 && s2 == 0x4e && s3 == 0x47 && s4 == 0x0d && s5 == 0x0a && s6
            == 0x1a && s7 == 0x0a) {
            proof {
                assert(data@.subrange(0, 8) != png_signature()) by {
                    if data@.subrange(0, 8) == png_signature() {
                        assert(data@.subrange(0, 8)[0] == s0);
                        assert(data@.subrange(0, 8)[1] == s1);
                        assert(data@.subrange(0, 8)[2] == s2);
                        assert(data@.subrange(0, 8)[3] == s3);
                        assert(data@.subrange(0, 8)[4] == s4);
                        assert(data@.subrange(0, 8)[5] == s5);
                        assert(data@.subrange(0, 8)[6] == s6);
                        assert(data@.subrange(0, 8)[7] == s7);
                    }
                }
            }
            return Err(CodecError::BadSignature);
        }
        proof {
            assert(data@.subrange(0, 8) =~= png_signature());
        }

        let mut chunks: Vec<Chunk> = Vec::new();
        let mut off: usize = 8;
        loop
            invariant
                8 <= off <= data@.len(),
                data@.subrange(0, 8) == png_signature(),
                forall|i: int| 0 <= i < chunks@.len() ==> (#[trigger] chunks@[i]).wf(),
                forall|i: int|
                    0 <= i < chunks@.len() ==> (#[trigger] chunk_models(chunks@)[i]).tag
                        != iend_tag(),
                parse_chunks(data@, 8) == match parse_chunks(data@, off as int) {
                    None => None::<Seq<ChunkModel>>,
                    Some(rest) => Some(chunk_models(chunks@) + rest),
                },
            decreases data@.len() - off,
        {
            match Chunk::read(data, off) {
                Err(_) => {
                    return Err(CodecError::ShortChunk);
                },
                Ok((chunk, end)) => {
                    let is_end = chunk.chunk_type.is_iend();
                    let ghost old_chunks = chunks@;
                    chunks.push(chunk);
                    proof {
                        assert(chunk_models(chunks@) =~= chunk_models(old_chunks) + seq![
                            chunk.model(),
                        ]);
                    }
                    if is_end {
                        proof {
                            assert(chunk.model().tag == iend_tag());
                            assert(seq![chunk.model()] + Seq::<ChunkModel>::empty() =~= seq![
                                chunk.model(),
                            ]);
                            assert(parse_chunks(data@, off as int) == Some(seq![chunk.model()]));
                            assert(chunk_models(old_chunks) + seq![chunk.model()] =~= chunk_models(
                                chunks@,
                            ));
                        }
                        return Ok(PNG { chunks });
                    }
                    proof {
                        assert(chunk.model().tag != iend_tag()) by {
                            assert(ihdr_tag()[1] == 0x48u8 && plte_tag()[0] == 0x50u8 && idat_tag()[1]
                                == 0x44u8 && iend_tag()[0] == 0x49u8 && iend_tag()[1] == 0x45u8);
                            match chunk.chunk_type {
                                ChunkType::IEND => {
                                    assert(false);
                                },
                                _ => {},
                            }
                        }
                        assert(forall|rest: Seq<ChunkModel>|
                            chunk_models(old_chunks) + (seq![chunk.model()] + rest) =~= chunk_models(
                                chunks@,
                            ) + rest);
                    }
                    off = end;
                },
            }
        }
    }

    /// Serializes the document: the eight-byte signature, then every chunk.
    pub fn to_bytes(&self) -> (r: Vec<u8>)
        requires
            forall|i: int| 0 <= i < self.chunks@.len() ==> (#[trigger] self.chunks@[i]).wf(),
        ensures
            r@ == png_file_bytes(self.chunks@),
    {
        let mut out: Vec<u8> = Vec::new();
        out.push(0x89);
        out.push(0x50);
        out.push(0x4e);
        out.push(0x47);
        out.push(0x0d);
        out.push(0x0a);
        out.push(0x1a);
        out.push(0x0a);
        proof {
            assert(out@ =~= png_signature());
        }
        let mut i: usize = 0;
        while i < self.chunks.len()
            invariant
                i <= self.chunks@.len(),
                forall|k: int| 0 <= k < self.chunks@.len() ==> (#[trigger] self.chunks@[k]).wf(),
                out@ == png_signature() + chunks_bytes(self.chunks@.subrange(0, i as int)),
            decreases self.chunks@.len() - i,
        {
            self.chunks[i].write(&mut out);
            i = i + 1;
            proof {
                let pre = self.chunks@.subrange(0, i - 1);
                let cur = self.chunks@.subrange(0, i as int);
                assert(chunk_models(cur).drop_last() =~= chunk_models(pre));
                assert(chunk_models(cur).last() == self.chunks@[i - 1].model());
                assert(out@ =~= png_signature() + chunks_bytes(cur));
            }
        }
        proof {
            assert(self.chunks@.subrange(0, self.chunks@.len() as int) =~= self.chunks@);
        }
        out
    }
}

/// Within the parse of a byte stream, the chunk list a writer laid down is
/// recovered record by record: parsing the bytes of a chunk list whose last
/// chunk is the only IEND yields exactly that list.
#[verifier::rlimit(100)]
pub proof fn lemma_parse_chunks_of_bytes(prefix: Seq<u8>, ms: Seq<ChunkModel>, off: int)
    requires
        off == prefix.len(),
        ms.len() >= 1,
        forall|i: int| 0 <= i < ms.len() ==> model_wf(#[trigger] ms[i]),
        forall|i: int|
            0 <= i < ms.len() ==> ((#[trigger] ms[i].tag == iend_tag()) <==> i == ms.len() - 1),
    ensures
        parse_chunks(prefix + models_bytes(ms), off) == Some(ms),
    decreases ms.len(),
{
    let first = ms.first();
    let rest = ms.drop_first();
    let data = prefix + models_bytes(ms);
    let data2 = prefix + model_bytes(first) + models_bytes(rest);
    lemma_models_bytes_first(ms);
    assert(data =~= data2);
    lemma_parse_one_chunk(prefix, first, models_bytes(rest));
    assert(chunk_parse_ok(data, off));
    assert(chunk_at(data, off) == first);
    if ms.len() == 1 {
        assert(first.tag == iend_tag());
        assert(ms =~= seq![first]);
    } else {
        assert(first.tag != iend_tag()) by {
            assert(ms[0].tag == iend_tag() <==> 0 == ms.len() - 1);
        }
        assert(forall|i: int| 0 <= i < rest.len() ==> #[trigger] rest[i] == ms[i + 1]);
        lemma_parse_chunks_of_bytes(prefix + model_bytes(first), rest, off + model_bytes(
            first,
        ).len());
        assert(chunk_end(data, off) == off + model_bytes(first).len());
        assert(parse_chunks(data, chunk_end(data, off)) == Some(rest));
        assert(seq![first] + rest =~= ms);
    }
}

/// Splitting the bytes of a nonempty chunk list at its first record.
proof fn lemma_models_bytes_first(ms: Seq<ChunkModel>)
    requires
        ms.len() >= 1,
    ensures
        models_bytes(ms) == model_bytes(ms.first()) + models_bytes(ms.drop_first()),
    decreases ms.len(),
{
    if ms.len() == 1 {
        assert(ms.drop_last() =~= Seq::<ChunkModel>::empty());
        assert(ms.drop_first() =~= Seq::<ChunkModel>::empty());
        assert(ms.last() == ms.first());
        assert(models_bytes(ms) =~= model_bytes(ms.first()) + models_bytes(ms.drop_first()));
    } else {
        lemma_models_bytes_first(ms.drop_last());
        assert(ms.drop_last().first() == ms.first());
        assert(ms.drop_last().drop_first() =~= ms.drop_first().drop_last());
        assert(ms.drop_first().last() == ms.last());
        assert(models_bytes(ms) == models_bytes(ms.drop_last()) + model_bytes(ms.last()));
        assert(models_bytes(ms.drop_first()) == models_bytes(ms.drop_first().drop_last())
            + model_bytes(ms.drop_first().last()));
        assert(models_bytes(ms) =~= model_bytes(ms.first()) + models_bytes(ms.drop_first()));
    }
}

/// A well-formed chunk written at `off` parses back to its own model, and
/// the parse stops exactly at its end.
proof fn lemma_parse_one_chunk(prefix: Seq<u8>, m: ChunkModel, suffix: Seq<u8>)
    requires
        model_wf(m),
    ensures
        chunk_parse_ok(prefix + model_bytes(m) + suffix, prefix.len() as int),
        chunk_at(prefix + model_bytes(m) + suffix, prefix.len() as int) == m,
        chunk_end(prefix + model_bytes(m) + suffix, prefix.len() as int) == prefix.len()
            + model_bytes(m).len(),
{
    let data = prefix + model_bytes(m) + suffix;
    let off = prefix.len() as int;
    let body = model_bytes(m);
    assert(body.len() == 12 + m.data.len());
    assert(m.tag.len() == 4);
    crate::bytes::lemma_be32_roundtrip(m.length);
    crate::bytes::lemma_be32_roundtrip(m.crc);
    assert(forall|i: int| 0 <= i < body.len() ==> data[off + i] == #[trigger] body[i]);
    assert(be32_at(data, off) == m.length) by {
        assert(data[off] == body[0] && data[off + 1] == body[1] && data[off + 2] == body[2]
            && data[off + 3] == body[3]);
        assert(body[0] == be32_bytes(m.length)[0] && body[1] == be32_bytes(m.length)[1] && body[2]
            == be32_bytes(m.length)[2] && body[3] == be32_bytes(m.length)[3]);
    }
    assert(chunk_parse_ok(data, off));
    assert(chunk_at(data, off).tag =~= m.tag);
    assert(chunk_at(data, off).data =~= m.data);
    assert(be32_at(data, off + 8 + m.length) == m.crc) by {
        assert(data[off + 8 + m.length] == body[8 + m.length] && data[off + 9 + m.length] == body[9
            + m.length] && data[off + 10 + m.length] == body[10 + m.length] && data[off + 11
            + m.length] == body[11 + m.length]);
        assert(body[8 + m.length] == be32_bytes(m.crc)[0] && body[9 + m.length] == be32_bytes(
            m.crc,
        )[1] && body[10 + m.length] == be32_bytes(m.crc)[2] && body[11 + m.length] == be32_bytes(
            m.crc,
        )[3]);
    }
    assert(chunk_at(data, off) =~= m);
}

} // verus!
