//! What holds of reassembled images after any sequence of payloads.
use vstd::prelude::*;
use crate::bitmap::bit_at;
use crate::image::{
    accepted, big_endian, blank_image, chunk_offset, fed_packets, geoscan_step, image_with_id,
    images_sound, lemma_images_stay_sound, new_ssdv_image, packet_slots, packets_jpeg, shows,
    shows_ssdv, slots_for, ssdv_image_after, ssdv_step, starts_image, with_chunk, with_packet,
    GeoscanLayout, ImageDecoder, ImageModel, ImageSnapshot, ImageStream, SsdvImageModel,
};
use crate::ssdv::PacketModel;
use crate::ssdv_jpeg::{headers, law_framed, law_headers_stay};

verus! {

/// The images after these payloads, from the start or the last reset on.
pub open spec fn geoscan_run(l: GeoscanLayout, payloads: Seq<Seq<u8>>) -> Seq<ImageModel>
    decreases payloads.len(),
{
    if payloads.len() == 0 {
        Seq::empty()
    } else {
        geoscan_step(l, geoscan_run(l, payloads.drop_last()), payloads.last()).0
    }
}

/// The payload is a chunk at offset zero that begins with the start-of-image marker.
pub open spec fn is_soi_chunk(l: GeoscanLayout, payload: Seq<u8>) -> bool {
    &&& chunk_offset(l, payload) == Some(0nat)
    &&& payload[l.chunk_at] == 0xFF
    &&& payload[l.chunk_at + 1] == 0xD8
}

/// Whatever payloads came since the last reset: every image has as many slots as its
/// bytes fill and at least one chunk received, and JPEG images exist only once a
/// chunk at offset zero began with the start-of-image marker.
pub proof fn law_images_are_sound(l: GeoscanLayout, payloads: Seq<Seq<u8>>)
    requires
        l.chunk_bytes > 0,
        l.chunk_at >= 0,
    ensures
        images_sound(l, geoscan_run(l, payloads)),
        l.decoder == ImageDecoder::Jpeg && geoscan_run(l, payloads).len() > 0 ==> exists|i: int|
            0 <= i < payloads.len() && is_soi_chunk(l, #[trigger] payloads[i]),
        payloads.len() == 0 ==> geoscan_run(l, payloads).len() == 0,
    decreases payloads.len(),
{
    if payloads.len() > 0 {
        let before = payloads.drop_last();
        let images = geoscan_run(l, before);
        let payload = payloads.last();
        law_images_are_sound(l, before);
        lemma_images_stay_sound(l, images, payload);
        if l.decoder == ImageDecoder::Jpeg && geoscan_run(l, payloads).len() > 0 {
            if images.len() > 0 {
                let i = choose|i: int|
                    0 <= i < before.len() && is_soi_chunk(l, #[trigger] before[i]);
                assert(payloads[i] == before[i]);
            } else {
                let chunk = payload.subrange(l.chunk_at, l.chunk_at + l.chunk_bytes);
                assert(chunk[0] == payload[l.chunk_at] && chunk[1] == payload[l.chunk_at + 1]);
                assert(is_soi_chunk(l, payloads[payloads.len() - 1]));
            }
        }
    }
}

/// The streams show the same.
pub open spec fn same_stream(a: ImageStream, b: ImageStream) -> bool {
    &&& a.image_idx == b.image_idx
    &&& a.bytes@ == b.bytes@
    &&& forall|k: int| #[trigger] bit_at(a.received_chunks@, k) <==> bit_at(b.received_chunks@, k)
    &&& a.total_chunks == b.total_chunks
    &&& a.received_count == b.received_count
    &&& a.last_offset == b.last_offset
    &&& a.last_chunk_idx == b.last_chunk_idx
}

/// The snapshot shows these images.
pub open spec fn shows_images(s: ImageSnapshot, images: Seq<ImageModel>) -> bool {
    &&& s.images@.len() == images.len()
    &&& forall|i: int| 0 <= i < images.len() ==> shows(#[trigger] s.images@[i], i, images[i])
}

proof fn lemma_same_stream(a: ImageStream, b: ImageStream, idx: int, m: ImageModel)
    requires
        shows(a, idx, m),
        shows(b, idx, m),
    ensures
        same_stream(a, b),
{
    assert forall|k: int| #[trigger] bit_at(a.received_chunks@, k) <==> bit_at(
        b.received_chunks@,
        k,
    ) by {
        assert(m.slots.contains(k) <==> bit_at(a.received_chunks@, k));
        assert(m.slots.contains(k) <==> bit_at(b.received_chunks@, k));
    }
}

proof fn lemma_offset_fits(l: GeoscanLayout, payload: Seq<u8>)
    requires
        l.offset_field.len <= 4,
    ensures
        chunk_offset(l, payload) matches Some(offset) ==> offset <= u32::MAX,
{
    reveal_with_fuel(big_endian, 5);
}

proof fn lemma_slot_fits(offset: int, cb: int)
    requires
        cb > 0,
        0 <= offset,
        slots_for(offset + cb, cb) <= u32::MAX,
    ensures
        0 <= offset / cb <= u32::MAX,
{
    vstd::arithmetic::div_mod::lemma_div_is_ordered(offset, offset + cb + cb - 1, cb);
    vstd::arithmetic::div_mod::lemma_div_pos_is_pos(offset, cb);
}

/// What one payload does, seen in the snapshots before and after it. A payload that is
/// refused changes nothing. A chunk that is taken stands at its offset in its image;
/// the other bytes of that image are kept, gaps are zero, the stream reaches as far as
/// it did or as the chunk does, and every other image stays as it was. The chunk's slot
/// is the one at its offset, and it counts as fresh if that slot was empty.
pub proof fn law_a_chunk_changes_its_image_only(
    l: GeoscanLayout,
    images: Seq<ImageModel>,
    payload: Seq<u8>,
    s0: ImageSnapshot,
    s1: ImageSnapshot,
)
    requires
        l.chunk_bytes > 0,
        l.chunk_at >= 0,
        l.offset_field.len <= 4,
        images.len() < u32::MAX,
        shows_images(s0, images),
        shows_images(s1, geoscan_step(l, images, payload).0),
    ensures
        match geoscan_step(l, images, payload).1 {
            None => {
                &&& s1.images@.len() == s0.images@.len()
                &&& forall|j: int|
                    0 <= j < s0.images@.len() ==> same_stream(
                        #[trigger] s1.images@[j],
                        s0.images@[j],
                    )
            },
            Some(u) => {
                let at = u.image_idx as int;
                let now = s1.images@[at];
                let known = at < s0.images@.len();
                let before = if known {
                    s0.images@[at].bytes@
                } else {
                    Seq::empty()
                };
                let end = u.offset + l.chunk_bytes;
                &&& at == s1.images@.len() - 1
                &&& s0.images@.len() <= s1.images@.len() <= s0.images@.len() + 1
                &&& u.bytes_written == l.chunk_bytes
                &&& now.bytes@.len() == if end > before.len() {
                    end
                } else {
                    before.len() as int
                }
                &&& now.bytes@.subrange(u.offset as int, end) == payload.subrange(
                    l.chunk_at,
                    l.chunk_at + l.chunk_bytes,
                )
                &&& forall|k: int|
                    0 <= k < now.bytes@.len() && !(u.offset <= k < end)
                        ==> #[trigger] now.bytes@[k] == if k < before.len() {
                        before[k]
                    } else {
                        0u8
                    }
                &&& u.chunk_idx == u.offset as int / l.chunk_bytes
                &&& bit_at(now.received_chunks@, u.chunk_idx as int)
                &&& u.fresh <==> !(known && bit_at(
                    s0.images@[at].received_chunks@,
                    u.chunk_idx as int,
                ))
                &&& forall|j: int|
                    0 <= j < s0.images@.len() && j != at ==> same_stream(
                        #[trigger] s1.images@[j],
                        s0.images@[j],
                    )
            },
        },
{
    let (after, r) = geoscan_step(l, images, payload);
    match r {
        None => {
            assert forall|j: int| 0 <= j < s0.images@.len() implies same_stream(
                #[trigger] s1.images@[j],
                s0.images@[j],
            ) by {
                lemma_same_stream(s1.images@[j], s0.images@[j], j, images[j]);
            }
        },
        Some(u) => {
            lemma_offset_fits(l, payload);
            let offset = chunk_offset(l, payload).unwrap();
            lemma_slot_fits(offset as int, l.chunk_bytes);
            let chunk = payload.subrange(l.chunk_at, l.chunk_at + l.chunk_bytes);
            let at = u.image_idx as int;
            let now = s1.images@[at];
            let started = offset == 0 && starts_image(l.decoder, images, chunk);
            let m = if images.len() == 0 || started {
                blank_image()
            } else {
                images[at]
            };
            assert(after[at] == with_chunk(m, offset as int, chunk));
            assert(shows(now, at, after[at]));
            assert(now.bytes@.subrange(offset as int, offset + l.chunk_bytes) =~= chunk);
            assert(after[at].slots.contains(offset as int / l.chunk_bytes));
            assert(bit_at(now.received_chunks@, u.chunk_idx as int));
            if at < s0.images@.len() {
                assert(shows(s0.images@[at], at, images[at]));
                assert(m.slots.contains(u.chunk_idx as int) <==> bit_at(
                    s0.images@[at].received_chunks@,
                    u.chunk_idx as int,
                ));
            }
            assert forall|j: int| 0 <= j < s0.images@.len() && j != at implies same_stream(
                #[trigger] s1.images@[j],
                s0.images@[j],
            ) by {
                assert(after[j] == images[j]);
                lemma_same_stream(s1.images@[j], s0.images@[j], j, images[j]);
            }
        },
    }
}

/// The packets by their number, of packets in the order in which they came.
pub open spec fn collected(came: Seq<PacketModel>) -> Seq<Option<PacketModel>>
    decreases came.len(),
{
    if came.len() == 0 {
        Seq::empty()
    } else {
        with_packet(collected(came.drop_last()), came.last())
    }
}

/// The numbers of these packets.
pub open spec fn numbers(came: Seq<PacketModel>) -> Set<int> {
    Set::new(|n: int| exists|i: int| 0 <= i < came.len() && #[trigger] came[i].packet_id == n)
}

/// Packets of the same number are copies of each other.
pub open spec fn no_conflict(came: Seq<PacketModel>) -> bool {
    forall|i: int, j: int|
        0 <= i < came.len() && 0 <= j < came.len() && (#[trigger] came[i]).packet_id == (
        #[trigger] came[j]).packet_id ==> came[i] == came[j]
}

proof fn lemma_collected(came: Seq<PacketModel>)
    ensures
        forall|n: int|
            0 <= n < collected(came).len() && (#[trigger] collected(came)[n]) is Some ==> exists|
                i: int,
            |
                0 <= i < came.len() && #[trigger] came[i] == collected(came)[n]->0
                    && came[i].packet_id == n,
        forall|i: int|
            0 <= i < came.len() ==> (#[trigger] came[i]).packet_id < collected(came).len()
                && collected(came)[came[i].packet_id as int] is Some,
        came.len() > 0 ==> exists|i: int|
            0 <= i < came.len() && #[trigger] came[i].packet_id + 1 == collected(came).len(),
        came.len() == 0 ==> collected(came).len() == 0,
    decreases came.len(),
{
    if came.len() > 0 {
        let before = came.drop_last();
        let last = came.len() - 1;
        lemma_collected(before);
        let c = collected(came);
        let b = collected(before);
        assert(came[last] == came.last());
        assert forall|n: int| 0 <= n < c.len() && (#[trigger] c[n]) is Some implies exists|i: int|
            0 <= i < came.len() && #[trigger] came[i] == c[n]->0 && came[i].packet_id == n by {
            if n == came.last().packet_id {
                assert(came[last] == c[n]->0);
            } else {
                assert(b[n] is Some);
                let i = choose|i: int|
                    0 <= i < before.len() && #[trigger] before[i] == b[n]->0 && before[i].packet_id
                        == n;
                assert(came[i] == before[i]);
            }
        }
        assert forall|i: int| 0 <= i < came.len() implies (#[trigger] came[i]).packet_id < c.len()
            && c[came[i].packet_id as int] is Some by {
            if i < last {
                assert(came[i] == before[i]);
            }
        }
        if came.last().packet_id >= b.len() {
            assert(came[last].packet_id + 1 == c.len());
        } else {
            let i = choose|i: int|
                0 <= i < before.len() && #[trigger] before[i].packet_id + 1 == b.len();
            assert(came[i].packet_id + 1 == c.len());
        }
    }
}

/// What is counted of the packets that came: as many slots as one more than the largest
/// number, and those marked whose packet came, each once.
pub proof fn law_packets_are_counted(came: Seq<PacketModel>)
    requires
        came.len() > 0,
    ensures
        packet_slots(collected(came)) == numbers(came),
        forall|i: int|
            0 <= i < came.len() ==> (#[trigger] came[i]).packet_id < collected(came).len(),
        exists|i: int|
            0 <= i < came.len() && #[trigger] came[i].packet_id + 1 == collected(came).len(),
{
    lemma_collected(came);
    let c = collected(came);
    assert forall|n: int| packet_slots(c).contains(n) <==> numbers(came).contains(n) by {
        if packet_slots(c).contains(n) {
            assert(c[n] is Some);
            let i = choose|i: int|
                0 <= i < came.len() && #[trigger] came[i] == c[n]->0 && came[i].packet_id == n;
            assert(came[i].packet_id == n);
        }
        if numbers(came).contains(n) {
            let i = choose|i: int| 0 <= i < came.len() && #[trigger] came[i].packet_id == n;
            assert(c[came[i].packet_id as int] is Some);
        }
    }
    assert(packet_slots(c) =~= numbers(came));
}

/// The order in which packets of one image come makes no difference, and neither does a
/// packet that comes again: what is kept of them, and so the JPEG, is the same.
pub proof fn law_packet_order_does_not_matter(a: Seq<PacketModel>, b: Seq<PacketModel>)
    requires
        no_conflict(a),
        forall|p: PacketModel| a.contains(p) <==> b.contains(p),
    ensures
        collected(a) == collected(b),
        packets_jpeg(collected(a)) == packets_jpeg(collected(b)),
{
    lemma_collected(a);
    lemma_collected(b);
    let x = collected(a);
    let y = collected(b);
    lemma_collected_subset(a, b);
    assert(no_conflict(b)) by {
        assert forall|i: int, j: int|
            0 <= i < b.len() && 0 <= j < b.len() && (#[trigger] b[i]).packet_id == (
            #[trigger] b[j]).packet_id implies b[i] == b[j] by {
            assert(b.contains(b[i]) && b.contains(b[j]));
            let k = choose|k: int| 0 <= k < a.len() && a[k] == b[i];
            let m = choose|m: int| 0 <= m < a.len() && a[m] == b[j];
            assert(a[k].packet_id == a[m].packet_id);
        }
    }
    lemma_collected_subset(b, a);
    assert(x =~= y);
}

proof fn lemma_collected_subset(a: Seq<PacketModel>, b: Seq<PacketModel>)
    requires
        no_conflict(a),
        forall|p: PacketModel| a.contains(p) <==> b.contains(p),
    ensures
        collected(a).len() <= collected(b).len(),
        forall|n: int|
            0 <= n < collected(a).len() && (#[trigger] collected(a)[n]) is Some ==> collected(b)[n]
                == collected(a)[n],
{
    lemma_collected(a);
    lemma_collected(b);
    let x = collected(a);
    let y = collected(b);
    if a.len() > 0 {
        let i = choose|i: int| 0 <= i < a.len() && #[trigger] a[i].packet_id + 1 == x.len();
        assert(a.contains(a[i]));
        let j = choose|j: int| 0 <= j < b.len() && b[j] == a[i];
        assert(b[j].packet_id < y.len());
    }
    assert forall|n: int| 0 <= n < x.len() && (#[trigger] x[n]) is Some implies y[n] == x[n] by {
        let i = choose|i: int|
            0 <= i < a.len() && #[trigger] a[i] == x[n]->0 && a[i].packet_id == n;
        assert(a.contains(a[i]));
        let j = choose|j: int| 0 <= j < b.len() && b[j] == a[i];
        assert(y[b[j].packet_id as int] is Some);
        let k = choose|k: int|
            0 <= k < b.len() && #[trigger] b[k] == y[n]->0 && b[k].packet_id == n;
        assert(b.contains(b[k]));
        let m = choose|m: int| 0 <= m < a.len() && a[m] == b[k];
        assert(a[m].packet_id == a[i].packet_id);
    }
}

/// The images after these payloads, from the start or the last reset on.
pub open spec fn ssdv_run(filter: Option<Seq<char>>, payloads: Seq<Seq<u8>>) -> Seq<SsdvImageModel>
    decreases payloads.len(),
{
    if payloads.len() == 0 {
        Seq::empty()
    } else {
        ssdv_step(filter, ssdv_run(filter, payloads.drop_last()), payloads.last()).0
    }
}

/// The packets of one image among the payloads that were taken, in order.
pub open spec fn came_for(filter: Option<Seq<char>>, payloads: Seq<Seq<u8>>, id: u8) -> Seq<
    PacketModel,
>
    decreases payloads.len(),
{
    if payloads.len() == 0 {
        Seq::empty()
    } else {
        let before = came_for(filter, payloads.drop_last(), id);
        match accepted(filter, payloads.last()) {
            Some(p) => if p.image_id == id {
                before.push(p)
            } else {
                before
            },
            None => before,
        }
    }
}

/// The image ids of the payloads that were taken, in the order of their first arrival.
pub open spec fn ids_seen(filter: Option<Seq<char>>, payloads: Seq<Seq<u8>>) -> Seq<u8>
    decreases payloads.len(),
{
    if payloads.len() == 0 {
        Seq::empty()
    } else {
        let before = ids_seen(filter, payloads.drop_last());
        match accepted(filter, payloads.last()) {
            Some(p) => if before.contains(p.image_id) {
                before
            } else {
                before.push(p.image_id)
            },
            None => before,
        }
    }
}

proof fn lemma_found(images: Seq<SsdvImageModel>, id: u8, from: int)
    requires
        0 <= from,
    ensures
        match image_with_id(images, id, from) {
            Some(i) => from <= i < images.len() && images[i].image_id == id,
            None => forall|i: int| from <= i < images.len() ==> images[i].image_id != id,
        },
    decreases images.len() - from,
{
    if from < images.len() && images[from].image_id != id {
        lemma_found(images, id, from + 1);
    }
}

/// There is one stream per image id, in the order of first arrival, and it holds the
/// packets that came for that id.
pub proof fn law_one_stream_per_image(filter: Option<Seq<char>>, payloads: Seq<Seq<u8>>)
    ensures
        ssdv_run(filter, payloads).len() == ids_seen(filter, payloads).len(),
        ids_seen(filter, payloads).no_duplicates(),
        forall|i: int|
            0 <= i < ssdv_run(filter, payloads).len() ==> {
                let m = #[trigger] ssdv_run(filter, payloads)[i];
                &&& m.image_id == ids_seen(filter, payloads)[i]
                &&& came_for(filter, payloads, m.image_id).len() > 0
                &&& m.packets == collected(came_for(filter, payloads, m.image_id))
            },
        forall|id: u8|
            (#[trigger] came_for(filter, payloads, id)).len() > 0 <==> ids_seen(
                filter,
                payloads,
            ).contains(id),
    decreases payloads.len(),
{
    if payloads.len() > 0 {
        let before = payloads.drop_last();
        let images = ssdv_run(filter, before);
        let ids = ids_seen(filter, before);
        law_one_stream_per_image(filter, before);
        match accepted(filter, payloads.last()) {
            None => {
                assert forall|id: u8|
                    (#[trigger] came_for(filter, payloads, id)).len() > 0 <==> ids_seen(
                        filter,
                        payloads,
                    ).contains(id) by {
                    assert(came_for(filter, payloads, id) == came_for(filter, before, id));
                }
            },
            Some(p) => {
                lemma_found(images, p.image_id, 0);
                let after = ssdv_run(filter, payloads);
                let now = ids_seen(filter, payloads);
                match image_with_id(images, p.image_id, 0) {
                    Some(at) => {
                        assert(ids[at] == images[at].image_id);
                        assert(ids.contains(p.image_id));
                        lemma_streams_after(filter, payloads, p, at);
                    },
                    None => {
                        assert(!ids.contains(p.image_id)) by {
                            if ids.contains(p.image_id) {
                                let i = choose|i: int| 0 <= i < ids.len() && ids[i] == p.image_id;
                                assert(images[i].image_id == ids[i]);
                            }
                        }
                        assert(came_for(filter, before, p.image_id).len() == 0);
                        lemma_streams_after(filter, payloads, p, images.len() as int);
                    },
                }
                assert forall|id: u8|
                    (#[trigger] came_for(filter, payloads, id)).len() > 0 <==> now.contains(id) by {
                    assert(came_for(filter, before, id).len() > 0 <==> ids.contains(id));
                    if ids.contains(p.image_id) {
                        assert(now == ids);
                    } else {
                        assert(now == ids.push(p.image_id));
                        assert(now[ids.len() as int] == p.image_id);
                        if ids.contains(id) {
                            let i = choose|i: int| 0 <= i < ids.len() && ids[i] == id;
                            assert(now[i] == id);
                        }
                    }
                }
            },
        }
    }
}

proof fn lemma_streams_after(
    filter: Option<Seq<char>>,
    payloads: Seq<Seq<u8>>,
    p: PacketModel,
    at: int,
)
    requires
        payloads.len() > 0,
        accepted(filter, payloads.last()) == Some(p),
        ({
            let before = payloads.drop_last();
            let images = ssdv_run(filter, before);
            let ids = ids_seen(filter, before);
            &&& images.len() == ids.len()
            &&& ids.no_duplicates()
            &&& forall|i: int|
                0 <= i < images.len() ==> {
                    let m = #[trigger] images[i];
                    &&& m.image_id == ids[i]
                    &&& came_for(filter, before, m.image_id).len() > 0
                    &&& m.packets == collected(came_for(filter, before, m.image_id))
                }
            &&& match image_with_id(images, p.image_id, 0) {
                Some(i) => at == i && 0 <= at < images.len() && images[at].image_id == p.image_id
                    && ids.contains(p.image_id),
                None => at == images.len() && !ids.contains(p.image_id) && came_for(
                    filter,
                    before,
                    p.image_id,
                ).len() == 0,
            }
        }),
    ensures
        ({
            let after = ssdv_run(filter, payloads);
            let now = ids_seen(filter, payloads);
            &&& after.len() == now.len()
            &&& now.no_duplicates()
            &&& forall|i: int|
                0 <= i < after.len() ==> {
                    let m = #[trigger] after[i];
                    &&& m.image_id == now[i]
                    &&& came_for(filter, payloads, m.image_id).len() > 0
                    &&& m.packets == collected(came_for(filter, payloads, m.image_id))
                }
        }),
{
    let before = payloads.drop_last();
    let images = ssdv_run(filter, before);
    let ids = ids_seen(filter, before);
    let after = ssdv_run(filter, payloads);
    let now = ids_seen(filter, payloads);
    assert forall|i: int| 0 <= i < after.len() implies {
        let m = #[trigger] after[i];
        &&& m.image_id == now[i]
        &&& came_for(filter, payloads, m.image_id).len() > 0
        &&& m.packets == collected(came_for(filter, payloads, m.image_id))
    } by {
        let came = came_for(filter, before, p.image_id);
        if i == at {
            let opened = if at < images.len() {
                images[at]
            } else {
                new_ssdv_image(p)
            };
            assert(after[i] == ssdv_image_after(opened, p));
            assert(came_for(filter, payloads, p.image_id) == came.push(p));
            assert(came.push(p).drop_last() =~= came);
            assert(collected(came.push(p)) == with_packet(collected(came), p));
            if at < images.len() {
                assert(images[at].packets == collected(came));
            }
        } else {
            assert(after[i] == images[i]);
            assert(ids[i] != p.image_id) by {
                if at < images.len() {
                    assert(ids[at] == images[at].image_id);
                } else if ids[i] == p.image_id {
                    assert(ids.contains(p.image_id));
                }
            }
            assert(came_for(filter, payloads, images[i].image_id) == came_for(
                filter,
                before,
                images[i].image_id,
            ));
        }
    }
    assert(now.no_duplicates());
}

/// The order in which payloads arrive makes no difference to an image, and neither does
/// one that comes again: where the same packets were taken for an image id, its streams
/// show the same bytes, slots and counts.
pub proof fn law_arrival_order_does_not_matter(
    filter: Option<Seq<char>>,
    a: Seq<Seq<u8>>,
    b: Seq<Seq<u8>>,
    i: int,
    j: int,
    x: ImageStream,
    y: ImageStream,
)
    requires
        0 <= i < ssdv_run(filter, a).len(),
        0 <= j < ssdv_run(filter, b).len(),
        ssdv_run(filter, a)[i].image_id == ssdv_run(filter, b)[j].image_id,
        no_conflict(came_for(filter, a, ssdv_run(filter, a)[i].image_id)),
        forall|p: PacketModel|
            came_for(filter, a, ssdv_run(filter, a)[i].image_id).contains(p) <==> came_for(
                filter,
                b,
                ssdv_run(filter, a)[i].image_id,
            ).contains(p),
        shows_ssdv(x, i, ssdv_run(filter, a)[i]),
        shows_ssdv(y, j, ssdv_run(filter, b)[j]),
    ensures
        x.bytes@ == y.bytes@,
        forall|k: int|
            #[trigger] bit_at(x.received_chunks@, k) <==> bit_at(y.received_chunks@, k),
        x.received_count == y.received_count,
        x.total_chunks == y.total_chunks,
{
    law_one_stream_per_image(filter, a);
    law_one_stream_per_image(filter, b);
    let m = ssdv_run(filter, a)[i];
    let n = ssdv_run(filter, b)[j];
    law_packet_order_does_not_matter(
        came_for(filter, a, m.image_id),
        came_for(filter, b, m.image_id),
    );
    assert forall|k: int| #[trigger] bit_at(x.received_chunks@, k) <==> bit_at(
        y.received_chunks@,
        k,
    ) by {
        assert(packet_slots(m.packets).contains(k) <==> bit_at(x.received_chunks@, k));
        assert(packet_slots(n.packets).contains(k) <==> bit_at(y.received_chunks@, k));
    }
}

proof fn lemma_fed_packets(packets: Seq<Option<PacketModel>>, n: nat)
    requires
        n <= packets.len(),
    ensures
        (exists|k: int| 0 <= k < n && (#[trigger] packets[k]) is Some) ==> {
            &&& fed_packets(packets, n).started
            &&& exists|k: int|
                0 <= k < n && (#[trigger] packets[k]) is Some && fed_packets(packets, n).head
                    == headers(
                    packets[k]->0.width,
                    packets[k]->0.height,
                    packets[k]->0.mcu_mode,
                    packets[k]->0.quality,
                )
        },
        !(exists|k: int| 0 <= k < n && (#[trigger] packets[k]) is Some) ==> !fed_packets(
            packets,
            n,
        ).started,
    decreases n,
{
    if n > 0 {
        let m = (n - 1) as nat;
        lemma_fed_packets(packets, m);
        let s = fed_packets(packets, m);
        match packets[n - 1] {
            Some(p) => {
                law_headers_stay(s, p);
                if exists|k: int| 0 <= k < m && (#[trigger] packets[k]) is Some {
                    let k = choose|k: int|
                        0 <= k < m && (#[trigger] packets[k]) is Some && s.head == headers(
                            packets[k]->0.width,
                            packets[k]->0.height,
                            packets[k]->0.mcu_mode,
                            packets[k]->0.quality,
                        );
                    assert(fed_packets(packets, n).head == s.head);
                    assert(packets[k] is Some);
                } else {
                    assert(packets[n - 1]->0 == p);
                }
            },
            None => {
                if exists|k: int| 0 <= k < n && (#[trigger] packets[k]) is Some {
                    let k = choose|k: int| 0 <= k < n && (#[trigger] packets[k]) is Some;
                    assert(k < m && packets[k] is Some);
                }
            },
        }
    }
}

/// A stream of a snapshot counts what came for its image: the count is that of the
/// different packet numbers, the total is one more than the largest, the slots marked
/// are those numbers, and the bytes are framed as a JPEG file.
pub proof fn law_streams_count_what_came(
    filter: Option<Seq<char>>,
    payloads: Seq<Seq<u8>>,
    i: int,
    stream: ImageStream,
)
    requires
        0 <= i < ssdv_run(filter, payloads).len(),
        shows_ssdv(stream, i, ssdv_run(filter, payloads)[i]),
    ensures
        ({
            let came = came_for(filter, payloads, ids_seen(filter, payloads)[i]);
            &&& came.len() > 0
            &&& stream.received_count == numbers(came).len()
            &&& forall|k: int|
                #[trigger] bit_at(stream.received_chunks@, k) <==> numbers(came).contains(k)
            &&& forall|k: int|
                0 <= k < came.len() ==> (#[trigger] came[k]).packet_id < stream.total_chunks
            &&& exists|k: int|
                0 <= k < came.len() && #[trigger] came[k].packet_id + 1 == stream.total_chunks
            &&& stream.bytes@.len() >= 4
            &&& stream.bytes@[0] == 0xFF
            &&& stream.bytes@[1] == 0xD8
            &&& stream.bytes@[stream.bytes@.len() - 2] == 0xFF
            &&& stream.bytes@[stream.bytes@.len() - 1] == 0xD9
        }),
{
    law_one_stream_per_image(filter, payloads);
    let m = ssdv_run(filter, payloads)[i];
    let came = came_for(filter, payloads, m.image_id);
    law_packets_are_counted(came);
    lemma_collected(came);
    assert forall|k: int|
        #[trigger] bit_at(stream.received_chunks@, k) <==> numbers(came).contains(k) by {
        assert(packet_slots(m.packets).contains(k) <==> bit_at(stream.received_chunks@, k));
    }
    assert(m.packets[came[0].packet_id as int] is Some);
    lemma_fed_packets(m.packets, m.packets.len());
    let s = fed_packets(m.packets, m.packets.len());
    let k = choose|k: int|
        0 <= k < m.packets.len() && (#[trigger] m.packets[k]) is Some && s.head == headers(
            m.packets[k]->0.width,
            m.packets[k]->0.height,
            m.packets[k]->0.mcu_mode,
            m.packets[k]->0.quality,
        );
    let p = m.packets[k]->0;
    law_framed(s, p.width, p.height, p.mcu_mode, p.quality);
}

} // verus!
