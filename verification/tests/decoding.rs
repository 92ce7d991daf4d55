use lattice_core::message::decode;
use lattice_core::proto::storage::SyncAuthor;
use prost::bytes::{Buf, BufMut};
use prost::encoding::{bytes, message, skip_field, uint32, uint64, DecodeContext, WireType};
use prost::{DecodeError, Message};

// The messages of the schema, as `prost` reads them.

fn at(message: &'static str, field: &'static str) -> impl Fn(DecodeError) -> DecodeError {
    move |mut e| {
        e.push(message, field);
        e
    }
}

#[derive(Debug, Default, PartialEq)]
struct PlainHlc {
    wall_time: u64,
    counter: u32,
}

impl Message for PlainHlc {
    fn encode_raw(&self, _buf: &mut impl BufMut) {}

    fn merge_field(
        &mut self,
        tag: u32,
        wire: WireType,
        buf: &mut impl Buf,
        ctx: DecodeContext,
    ) -> Result<(), DecodeError> {
        match tag {
            1 => uint64::merge(wire, &mut self.wall_time, buf, ctx).map_err(at("Hlc", "wall_time")),
            2 => uint32::merge(wire, &mut self.counter, buf, ctx).map_err(at("Hlc", "counter")),
            _ => skip_field(wire, tag, buf, ctx),
        }
    }

    fn encoded_len(&self) -> usize {
        0
    }

    fn clear(&mut self) {}
}

#[derive(Debug, Default, PartialEq)]
struct PlainState {
    seq: u64,
    hash: Vec<u8>,
    hlc: Option<PlainHlc>,
}

impl Message for PlainState {
    fn encode_raw(&self, _buf: &mut impl BufMut) {}

    fn merge_field(
        &mut self,
        tag: u32,
        wire: WireType,
        buf: &mut impl Buf,
        ctx: DecodeContext,
    ) -> Result<(), DecodeError> {
        let name = "AuthorState";
        match tag {
            1 => uint64::merge(wire, &mut self.seq, buf, ctx).map_err(at(name, "seq")),
            2 => bytes::merge(wire, &mut self.hash, buf, ctx).map_err(at(name, "hash")),
            3 => {
                let hlc = self.hlc.get_or_insert_with(Default::default);
                message::merge(wire, hlc, buf, ctx).map_err(at(name, "hlc"))
            }
            _ => skip_field(wire, tag, buf, ctx),
        }
    }

    fn encoded_len(&self) -> usize {
        0
    }

    fn clear(&mut self) {}
}

#[derive(Debug, Default, PartialEq)]
struct PlainAuthor {
    author_id: Vec<u8>,
    state: Option<PlainState>,
}

impl Message for PlainAuthor {
    fn encode_raw(&self, _buf: &mut impl BufMut) {}

    fn merge_field(
        &mut self,
        tag: u32,
        wire: WireType,
        buf: &mut impl Buf,
        ctx: DecodeContext,
    ) -> Result<(), DecodeError> {
        let name = "SyncAuthor";
        match tag {
            1 => bytes::merge(wire, &mut self.author_id, buf, ctx).map_err(at(name, "author_id")),
            2 => {
                let state = self.state.get_or_insert_with(Default::default);
                message::merge(wire, state, buf, ctx).map_err(at(name, "state"))
            }
            _ => skip_field(wire, tag, buf, ctx),
        }
    }

    fn encoded_len(&self) -> usize {
        0
    }

    fn clear(&mut self) {}
}

fn plain(a: SyncAuthor) -> PlainAuthor {
    PlainAuthor {
        author_id: a.author_id,
        state: a.state.map(|s| PlainState {
            seq: s.seq,
            hash: s.hash,
            hlc: s.hlc.map(|h| PlainHlc { wall_time: h.wall_time, counter: h.counter }),
        }),
    }
}

/// Both readers give the same message, or the same error.
fn agree(b: &[u8]) -> bool {
    let ours = decode::<SyncAuthor>(b).map(plain).map_err(|e| e.to_string());
    let theirs = PlainAuthor::decode(b).map_err(|e| e.to_string());
    assert_eq!(ours, theirs, "{:?}", b);
    theirs.is_ok()
}

#[test]
fn bytes_are_read_as_prost_reads_them() {
    // Keys, lengths and payloads that come close to being messages.
    let parts: [&[u8]; 16] = [
        &[0x0A, 2, 7, 7],
        &[0x12, 2, 0x08, 5],
        &[0x12, 6, 0x1A, 4, 0x08, 1, 0x10, 2],
        &[0x12, 1],
        &[0x12, 3, 0x1A, 1],
        &[0x08, 0x96, 0x01],
        &[0x4B, 0x08, 1, 0x4C],
        &[0x4B],
        &[0x4C],
        &[0x49, 1, 2, 3, 4, 5, 6, 7, 8],
        &[0x4D, 1, 2, 3, 4],
        &[0x10, 1],
        &[0x00],
        &[0x0F],
        &[0xFF, 0xFF, 0xFF, 0xFF, 0xFF, 0xFF, 0xFF, 0xFF, 0xFF, 0x02],
        &[0x80, 0x80, 0x80, 0x80, 0x40],
    ];
    let mut good = 0;
    let mut state: u64 = 7;
    for _ in 0..20_000 {
        let mut b: Vec<u8> = Vec::new();
        loop {
            state = state.wrapping_mul(6364136223846793005).wrapping_add(1442695040888963407);
            let x = (state >> 33) as usize;
            if x % 5 == 0 {
                break;
            }
            b.extend_from_slice(parts[x / 8 % 16]);
            if x % 7 == 0 && !b.is_empty() {
                let i = x / 128 % b.len();
                b[i] = (x >> 16) as u8 & 0x1F;
            }
        }
        if agree(&b) {
            good += 1;
        }
    }
    assert!(good > 1000 && good < 19_000, "{}", good);
}

#[test]
fn unknown_groups_count_as_levels() {
    for levels in [1usize, 96, 97, 98, 99, 100, 101] {
        let mut group = vec![0x4B; levels];
        group.extend(vec![0x4C; levels]);
        // In the message itself, in the one that it holds, and one further in.
        let mut top = group.clone();
        assert_eq!(agree(&top), levels <= 100);
        let mut inner = vec![0x12, group.len() as u8 & 0x7F | 0x80, (group.len() >> 7) as u8];
        inner.extend_from_slice(&group);
        assert_eq!(agree(&inner), levels <= 99);
        let mut hlc = vec![0x1A, group.len() as u8 & 0x7F | 0x80, (group.len() >> 7) as u8];
        hlc.extend_from_slice(&group);
        let n = hlc.len();
        let mut deep = vec![0x12, n as u8 & 0x7F | 0x80, (n >> 7) as u8];
        deep.extend_from_slice(&hlc);
        assert_eq!(agree(&deep), levels <= 98);
        top.pop();
        assert!(!agree(&top));
    }
}
