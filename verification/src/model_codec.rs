//! The compact binary encoding of particle models.
//!
//! Layout: the magic `PMDL`, the model id (u64 LE), the name's byte length
//! (u32 LE) and its UTF-8 bytes, the particle count (u32 LE), then per
//! particle 50 bytes: position x, y, z; character code; colour r, g, b, a;
//! emission; normal x, y, z (twelve u32 LE words, the float fields as their
//! IEEE-754 bit patterns), then the group id and the layer id as one byte each.

use vstd::bytes::*;
use vstd::prelude::*;
use vstd::slice::*;
use vstd::string::*;
use vstd::utf8::*;

verus! {

/// A particle as the compact encoding stores it: float fields as bit patterns.
#[derive(Clone, Copy, Debug, PartialEq, Eq)]
pub struct CompactParticle {
    pub position: (u32, u32, u32),
    pub character: char,
    pub color: (u32, u32, u32, u32),
    pub emission: u32,
    pub normal: (u32, u32, u32),
    pub group_id: u32,
    pub layer_id: u8,
}

/// The part of a particle model that the compact encoding carries.
pub struct CompactModel {
    pub id: u64,
    pub name: String,
    pub particles: Vec<CompactParticle>,
}

/// The mathematical value of a [`CompactModel`].
pub struct CompactModelView {
    pub id: u64,
    pub name: Seq<char>,
    pub particles: Seq<CompactParticle>,
}

impl View for CompactModel {
    type V = CompactModelView;

    open spec fn view(&self) -> CompactModelView {
        CompactModelView { id: self.id, name: self.name@, particles: self.particles@ }
    }
}

/// Bytes per encoded particle.
pub const PARTICLE_BYTES: usize = 50;

/// The magic bytes `PMDL`.
pub open spec fn magic() -> Seq<u8> {
    seq![0x50u8, 0x4Du8, 0x44u8, 0x4Cu8]
}

pub open spec fn le32(x: u32) -> Seq<u8> {
    spec_u32_to_le_bytes(x)
}

/// The 50 bytes of one particle.
pub open spec fn particle_bytes(p: CompactParticle) -> Seq<u8> {
    le32(p.position.0) + le32(p.position.1) + le32(p.position.2) + le32(p.character as u32)
        + le32(p.color.0) + le32(p.color.1) + le32(p.color.2) + le32(p.color.3)
        + le32(p.emission) + le32(p.normal.0) + le32(p.normal.1) + le32(p.normal.2)
        + seq![p.group_id as u8, p.layer_id]
}

/// The bytes of a run of particles, in order.
pub open spec fn particles_bytes(ps: Seq<CompactParticle>) -> Seq<u8>
    decreases ps.len(),
{
    if ps.len() == 0 {
        Seq::empty()
    } else {
        particles_bytes(ps.drop_last()) + particle_bytes(ps.last())
    }
}

/// The encoding of a model. Lengths are written as `u32`, truncated as the
/// format's writer does.
pub open spec fn compact_bytes(m: CompactModelView) -> Seq<u8> {
    magic() + spec_u64_to_le_bytes(m.id) + le32(encode_utf8(m.name).len() as u32)
        + encode_utf8(m.name) + le32(m.particles.len() as u32) + particles_bytes(m.particles)
}

/// The little-endian `u32` at `off`.
pub open spec fn u32_at(data: Seq<u8>, off: int) -> u32 {
    spec_u32_from_le_bytes(data.subrange(off, off + 4))
}

/// The character a stored code stands for; codes that are no Unicode scalar
/// read as `'.'`.
pub open spec fn decode_char(code: u32) -> char {
    if is_scalar(code) {
        code as char
    } else {
        '.'
    }
}

/// The particle encoded by a 50-byte chunk.
pub open spec fn decode_particle(chunk: Seq<u8>) -> CompactParticle {
    CompactParticle {
        position: (u32_at(chunk, 0), u32_at(chunk, 4), u32_at(chunk, 8)),
        character: decode_char(u32_at(chunk, 12)),
        color: (u32_at(chunk, 16), u32_at(chunk, 20), u32_at(chunk, 24), u32_at(chunk, 28)),
        emission: u32_at(chunk, 32),
        normal: (u32_at(chunk, 36), u32_at(chunk, 40), u32_at(chunk, 44)),
        group_id: chunk[48] as u32,
        layer_id: chunk[49],
    }
}

/// The byte length of the stored name.
pub open spec fn stored_name_len(data: Seq<u8>) -> int {
    u32_at(data, 12) as int
}

/// Whether a reader gets as far as the particle count: the header is whole,
/// the magic matches, and the name fits and is valid UTF-8.
pub open spec fn reaches_count(data: Seq<u8>) -> bool {
    &&& data.len() >= 16
    &&& data.subrange(0, 4) == magic()
    &&& 16 + stored_name_len(data) <= data.len()
    &&& valid_utf8(data.subrange(16, 16 + stored_name_len(data)))
}

/// The inputs a reader can take: whenever it gets as far as the particle
/// count, the four bytes of the count are there.
pub open spec fn count_readable(data: Seq<u8>) -> bool {
    reaches_count(data) ==> 16 + stored_name_len(data) + 4 <= data.len()
}

/// What decoding `data` gives: `None` for a short header, a wrong magic, a
/// name that overruns the data or is not UTF-8, or too few bytes for the
/// announced particles; the model otherwise. Bytes after the last particle
/// are ignored.
pub open spec fn parse_compact(data: Seq<u8>) -> Option<CompactModelView> {
    if !reaches_count(data) {
        None
    } else {
        let base = 16 + stored_name_len(data) + 4;
        let count = u32_at(data, base - 4) as int;
        if base + count * 50 > data.len() {
            None
        } else {
            Some(
                CompactModelView {
                    id: spec_u64_from_le_bytes(data.subrange(4, 12)),
                    name: decode_utf8(data.subrange(16, 16 + stored_name_len(data))),
                    particles: Seq::new(
                        count as nat,
                        |i: int| decode_particle(data.subrange(base + 50 * i, base + 50 * i + 50)),
                    ),
                },
            )
        }
    }
}

proof fn lemma_particle_round_trip(p: CompactParticle)
    requires
        p.group_id < 256,
    ensures
        particle_bytes(p).len() == 50,
        decode_particle(particle_bytes(p)) == p,
{
    lemma_auto_spec_u32_to_from_le_bytes();
    let b = particle_bytes(p);
    assert(b.len() == 50);
    assert(b.subrange(0, 4) =~= le32(p.position.0));
    assert(b.subrange(4, 8) =~= le32(p.position.1));
    assert(b.subrange(8, 12) =~= le32(p.position.2));
    assert(b.subrange(12, 16) =~= le32(p.character as u32));
    assert(b.subrange(16, 20) =~= le32(p.color.0));
    assert(b.subrange(20, 24) =~= le32(p.color.1));
    assert(b.subrange(24, 28) =~= le32(p.color.2));
    assert(b.subrange(28, 32) =~= le32(p.color.3));
    assert(b.subrange(32, 36) =~= le32(p.emission));
    assert(b.subrange(36, 40) =~= le32(p.normal.0));
    assert(b.subrange(40, 44) =~= le32(p.normal.1));
    assert(b.subrange(44, 48) =~= le32(p.normal.2));
    assert(b[48] == p.group_id as u8);
    assert(b[49] == p.layer_id);
    vstd::utf8::char_is_scalar(p.character);
    vstd::utf8::char_u32_cast(p.character, p.character as u32);
    assert(decode_char(p.character as u32) == p.character);
}

proof fn lemma_particles_bytes_chunk(ps: Seq<CompactParticle>, i: int)
    requires
        0 <= i < ps.len(),
    ensures
        particles_bytes(ps).len() == 50 * ps.len(),
        particles_bytes(ps).subrange(50 * i, 50 * i + 50) == particle_bytes(ps[i]),
    decreases ps.len(),
{
    lemma_particles_bytes_len(ps);
    let init = ps.drop_last();
    lemma_particles_bytes_len(init);
    if i < ps.len() - 1 {
        lemma_particles_bytes_chunk(init, i);
        assert(50 * i + 50 <= 50 * init.len()) by (nonlinear_arith)
            requires
                i < init.len(),
        ;
        assert(particles_bytes(ps).subrange(50 * i, 50 * i + 50) =~= particles_bytes(init).subrange(
            50 * i,
            50 * i + 50,
        ));
    } else {
        assert(50 * i == 50 * init.len());
        assert(particles_bytes(ps).subrange(50 * i, 50 * i + 50) =~= particle_bytes(ps.last()));
    }
}

proof fn lemma_particles_bytes_len(ps: Seq<CompactParticle>)
    ensures
        particles_bytes(ps).len() == 50 * ps.len(),
    decreases ps.len(),
{
    if ps.len() > 0 {
        lemma_auto_spec_u32_to_from_le_bytes();
        lemma_particles_bytes_len(ps.drop_last());
        assert(particle_bytes(ps.last()).len() == 50);
    }
}

/// Decoding an encoded model gives the model back: the length fields fit
/// their `u32`s and every group id fits the byte it is stored in.
pub proof fn lemma_compact_round_trip(m: CompactModelView)
    requires
        encode_utf8(m.name).len() <= u32::MAX,
        m.particles.len() <= u32::MAX,
        forall|i: int| 0 <= i < m.particles.len() ==> #[trigger] m.particles[i].group_id < 256,
    ensures
        count_readable(compact_bytes(m)),
        parse_compact(compact_bytes(m)) == Some(m),
{
    lemma_auto_spec_u32_to_from_le_bytes();
    lemma_auto_spec_u64_to_from_le_bytes();
    vstd::utf8::encode_utf8_valid_utf8(m.name);
    vstd::utf8::encode_utf8_decode_utf8(m.name);
    let name = encode_utf8(m.name);
    let nl = name.len() as int;
    let n = m.particles.len() as int;
    let body = particles_bytes(m.particles);
    lemma_particles_bytes_len(m.particles);
    let data = compact_bytes(m);
    let base = 16 + nl + 4;
    assert(data.len() == base + 50 * n);
    assert(data.subrange(0, 4) =~= magic());
    assert(data.subrange(4, 12) =~= spec_u64_to_le_bytes(m.id));
    assert(data.subrange(12, 16) =~= le32(nl as u32));
    assert(stored_name_len(data) == nl);
    assert(data.subrange(16, 16 + nl) =~= name);
    assert(data.subrange(base - 4, base) =~= le32(n as u32));
    assert(u32_at(data, base - 4) == n);
    assert(reaches_count(data));
    let parsed = Seq::new(
        n as nat,
        |i: int| decode_particle(data.subrange(base + 50 * i, base + 50 * i + 50)),
    );
    assert forall|i: int| 0 <= i < n implies parsed[i] == m.particles[i] by {
        lemma_particles_bytes_chunk(m.particles, i);
        lemma_particle_round_trip(m.particles[i]);
        assert(50 * i + 50 <= 50 * n) by (nonlinear_arith)
            requires
                i < n,
        ;
        assert(data.subrange(base + 50 * i, base + 50 * i + 50) =~= body.subrange(50 * i, 50 * i + 50));
    }
    assert(parsed =~= m.particles);
}

/// `String::from_utf8`: succeeds exactly when the bytes are valid UTF-8, and
/// then holds the characters they encode.
#[verifier::external_body]
fn string_from_utf8(bytes: Vec<u8>) -> (r: Option<String>)
    ensures
        r is Some <==> valid_utf8(bytes@),
        r matches Some(s) ==> s@ == decode_utf8(bytes@),
{
    String::from_utf8(bytes).ok()
}

/// `char::from_u32`: succeeds exactly on Unicode scalar values, giving the
/// character with that code.
#[verifier::external_body]
pub(crate) fn char_from_u32(code: u32) -> (r: Option<char>)
    ensures
        r is Some <==> is_scalar(code),
        r matches Some(c) ==> c as u32 == code,
{
    char::from_u32(code)
}

fn read_u32(chunk: &[u8], off: usize) -> (r: u32)
    requires
        off + 4 <= chunk@.len(),
    ensures
        r == u32_at(chunk@, off as int),
{
    let n = chunk.len();
    assert(off + 4 <= n);
    u32_from_le_bytes(slice_subrange(chunk, off, off + 4))
}

fn read_particle(chunk: &[u8]) -> (r: CompactParticle)
    requires
        chunk@.len() == 50,
    ensures
        r == decode_particle(chunk@),
{
    let code = read_u32(chunk, 12);
    let character = match char_from_u32(code) {
        Some(c) => {
            proof {
                vstd::utf8::char_u32_cast(c, code);
            }
            c
        },
        None => '.',
    };
    CompactParticle {
        position: (read_u32(chunk, 0), read_u32(chunk, 4), read_u32(chunk, 8)),
        character,
        color: (read_u32(chunk, 16), read_u32(chunk, 20), read_u32(chunk, 24), read_u32(chunk, 28)),
        emission: read_u32(chunk, 32),
        normal: (read_u32(chunk, 36), read_u32(chunk, 40), read_u32(chunk, 44)),
        group_id: chunk[48] as u32,
        layer_id: chunk[49],
    }
}

fn append_u32(out: &mut Vec<u8>, x: u32)
    ensures
        final(out)@ == old(out)@ + le32(x),
{
    let mut b = u32_to_le_bytes(x);
    out.append(&mut b);
}

fn append_particle(out: &mut Vec<u8>, p: &CompactParticle)
    ensures
        final(out)@ == old(out)@ + particle_bytes(*p),
{
    let ghost start = out@;
    append_u32(out, p.position.0);
    append_u32(out, p.position.1);
    append_u32(out, p.position.2);
    append_u32(out, p.character as u32);
    append_u32(out, p.color.0);
    append_u32(out, p.color.1);
    append_u32(out, p.color.2);
    append_u32(out, p.color.3);
    append_u32(out, p.emission);
    append_u32(out, p.normal.0);
    append_u32(out, p.normal.1);
    append_u32(out, p.normal.2);
    out.push(p.group_id as u8);
    out.push(p.layer_id);
    assert(out@ =~= start + particle_bytes(*p));
}

/// Encoder and decoder of the compact model format.
pub struct ModelSerializer;

impl ModelSerializer {
    /// Encodes a model.
    pub fn serialize_compact(model: &CompactModel) -> (r: Vec<u8>)
        ensures
            r@ == compact_bytes(model@),
    {
        let mut out: Vec<u8> = Vec::new();
        out.push(0x50u8);
        out.push(0x4Du8);
        out.push(0x44u8);
        out.push(0x4Cu8);
        let mut id_bytes = u64_to_le_bytes(model.id);
        out.append(&mut id_bytes);
        let mut name_bytes = model.name.as_str().as_bytes_vec();
        append_u32(&mut out, name_bytes.len() as u32);
        out.append(&mut name_bytes);
        append_u32(&mut out, model.particles.len() as u32);
        let ghost header = out@;
        assert(header =~= magic() + spec_u64_to_le_bytes(model.id) + le32(
            encode_utf8(model.name@).len() as u32,
        ) + encode_utf8(model.name@) + le32(model.particles@.len() as u32));
        for i in 0..model.particles.len()
            invariant
                out@ == header + particles_bytes(model.particles@.take(i as int)),
        {
            append_particle(&mut out, &model.particles[i]);
            proof {
                let ps = model.particles@.take(i + 1);
                assert(ps.drop_last() =~= model.particles@.take(i as int));
                assert(out@ =~= header + particles_bytes(ps));
            }
        }
        assert(model.particles@.take(model.particles@.len() as int) =~= model.particles@);
        out
    }

    /// Decodes a model; `None` where [`parse_compact`] says so.
    pub fn deserialize_compact(data: &[u8]) -> (r: Option<CompactModel>)
        requires
            count_readable(data@),
        ensures
            match r {
                Some(m) => parse_compact(data@) == Some(m@),
                None => parse_compact(data@) is None,
            },
    {
        if data.len() < 16 {
            return None;
        }
        if data[0] != 0x50u8 || data[1] != 0x4Du8 || data[2] != 0x44u8 || data[3] != 0x4Cu8 {
            proof {
                assert(data@.subrange(0, 4) != magic()) by {
                    if data@.subrange(0, 4) == magic() {
                        assert(data@.subrange(0, 4)[0] == data@[0]);
                        assert(data@.subrange(0, 4)[1] == data@[1]);
                        assert(data@.subrange(0, 4)[2] == data@[2]);
                        assert(data@.subrange(0, 4)[3] == data@[3]);
                    }
                }
            }
            return None;
        }
        assert(data@.subrange(0, 4) =~= magic());
        let id = u64_from_le_bytes(slice_subrange(data, 4, 12));
        let name_len = read_u32(data, 12) as usize;
        if name_len > data.len() - 16 {
            return None;
        }
        let name_bytes = slice_to_vec(slice_subrange(data, 16, 16 + name_len));
        let name = match string_from_utf8(name_bytes) {
            Some(s) => s,
            None => {
                return None;
            },
        };
        let base = 16 + name_len + 4;
        let count = read_u32(data, base - 4);
        if (count as u64) * 50 > (data.len() - base) as u64 {
            return None;
        }
        let ghost expected = Seq::new(
            count as nat,
            |i: int| decode_particle(data@.subrange(base + 50 * i, base + 50 * i + 50)),
        );
        let mut particles: Vec<CompactParticle> = Vec::new();
        let mut i: u32 = 0;
        let mut off: usize = base;
        while i < count
            invariant
                i <= count,
                base <= data@.len(),
                base + count * 50 <= data@.len(),
                off == base + 50 * i,
                expected == Seq::new(
                    count as nat,
                    |j: int| decode_particle(data@.subrange(base + 50 * j, base + 50 * j + 50)),
                ),
                particles@ == expected.take(i as int),
            decreases count - i,
        {
            assert(off + 50 <= data@.len()) by (nonlinear_arith)
                requires
                    off == base + 50 * i,
                    i < count,
                    base + count * 50 <= data@.len(),
            ;
            let n = data.len();
            assert(off + 50 <= n);
            let p = read_particle(slice_subrange(data, off, off + 50));
            particles.push(p);
            assert(particles@ =~= expected.take(i + 1));
            off = off + 50;
            i = i + 1;
        }
        assert(expected.take(count as int) =~= expected);
        Some(CompactModel { id, name, particles })
    }
}

} // verus!
