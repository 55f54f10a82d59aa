//! What a session shares with its peers beside blocks, fact by fact: the info
//! dictionary, and the addresses of other peers.
use crate::alerts::category::{Alert, AlertErrorCode};
use crate::blob::blob;
use crate::ids::PeerSlot;
use crate::keyed::{find_key, lemma_find, lemma_find_unique};
use crate::net::PeerAddr;
use crate::session::effects::{others_as_before, rest_as_before};
use crate::session::info::Info;
use crate::session::keeps::{
    lemma_ask_metadata_keeps, lemma_interest_all_keeps, lemma_with_metadata_keeps,
};
use crate::session::messages::{
    Deed, ExtensionInput, ExtensionNote, MetadataMessage, MetadataNote, PeerNote, PeerToSession,
};
use crate::session::metadata_exchange::{joined, AssemblerModel, MAX_METADATA_SIZE};
use crate::session::model::{addrs_known, next_needed, PeerModel, SessionModel};
use crate::session::params::ParamsModel;
use crate::session::pex::{
    addrs_of, distinct, lemma_distinct, lemma_without, without, PexMessage, PexModel, PexPeer,
};
use crate::session::torrent::{by_ref, metadata_fits, on_event, SessionEvent};
use vstd::prelude::*;

verus! {

/// A metadata message from `slot`.
pub open spec fn metadata_word(slot: PeerSlot, msg: MetadataMessage) -> SessionEvent {
    SessionEvent::Peer(
        PeerToSession::ExtensionMessage { slot, input: ExtensionInput::Metadata(Some(msg)) },
    )
}

/// A peer that asks for a piece of the info dictionary is sent the bytes that
/// stand there in it, as many as a piece has or as are left, and how many there
/// are in all. Where there is no such piece, it is told so. The session stays as
/// it is, and nobody else hears anything.
pub proof fn law_info_dictionary_is_served(
    m: SessionModel,
    slot: PeerSlot,
    piece: u32,
    at: int,
    now: u64,
)
    requires
        m.wf(),
        0 <= at < m.peers.len(),
        m.peers[at].0 == slot,
        m.info_dict matches Some(info) ==> info.len() <= u64::MAX,
    ensures
        ({
            let (n, told) = on_event(
                m,
                metadata_word(slot, MetadataMessage::Request { piece }),
                now,
            );
            let start = piece * 16384;
            let there = m.info_dict is Some && start < m.info_dict->0.len();
            let info = m.info_dict->0;
            let answer = told[0]->Send_1->SendExtended_0->Metadata_0;
            &&& n == m
            &&& told.len() == 1
            &&& told[0] is Send && told[0]->Send_0 == slot
            &&& told[0]->Send_1 is SendExtended && told[0]->Send_1->SendExtended_0 is Metadata
            &&& !there ==> answer == (MetadataNote::Reject { piece })
            &&& there ==> {
                &&& answer is Data
                &&& answer->Data_piece == piece
                &&& answer->total_size == info.len()
                &&& answer->data.len() <= 16384
                &&& start + answer->data.len() <= info.len()
                &&& answer->data.len() < 16384 ==> start + answer->data.len() == info.len()
                &&& forall|j: int|
                    0 <= j < answer->data.len() ==> #[trigger] answer->data[j] == info[start + j]
            }
        }),
{
    lemma_find_unique(m.peers, at);
}

/// The bytes that come before piece `p`, where every piece but the last is full.
proof fn lemma_joined_full(pieces: Seq<Option<Seq<u8>>>, n: int)
    requires
        0 <= n <= pieces.len(),
        forall|p: int|
            0 <= p < n ==> (#[trigger] pieces[p]) is Some && pieces[p]->0.len() == 16384,
    ensures
        joined(pieces.take(n)).len() == n * 16384,
    decreases n,
{
    if n > 0 {
        lemma_joined_full(pieces, n - 1);
        assert(pieces.take(n).drop_last() =~= pieces.take(n - 1));
    } else {
        assert(pieces.take(0) =~= Seq::<Option<Seq<u8>>>::empty());
    }
}

proof fn lemma_joined_prefix(pieces: Seq<Option<Seq<u8>>>, n: int)
    requires
        0 <= n <= pieces.len(),
    ensures
        joined(pieces.take(n)).len() <= joined(pieces).len(),
        joined(pieces).take(joined(pieces.take(n)).len() as int) == joined(pieces.take(n)),
    decreases pieces.len(),
{
    if n == pieces.len() {
        assert(pieces.take(n) =~= pieces);
        assert(joined(pieces).take(joined(pieces).len() as int) =~= joined(pieces));
    } else {
        let front = pieces.drop_last();
        lemma_joined_prefix(front, n);
        assert(front.take(n) =~= pieces.take(n));
        let a = joined(pieces.take(n));
        assert(joined(pieces).take(a.len() as int) =~= joined(front).take(a.len() as int));
    }
}

/// What is put together from pieces of which all but the last are full holds each
/// byte of each piece at the piece's place, and nothing else, up to the size.
pub proof fn law_metadata_is_its_pieces(m: AssemblerModel, p: int, j: int)
    requires
        m.wf(),
        m.total_size is Some,
        m.complete(),
        forall|i: int| 0 <= i < m.pieces.len() - 1 ==> (#[trigger] m.pieces[i])->0.len() == 16384,
        0 <= p < m.pieces.len(),
        0 <= j < m.pieces[p]->0.len(),
        p * 16384 + j < m.total_size->0,
    ensures
        m.metadata().len() <= m.total_size->0,
        p * 16384 + j < m.metadata().len(),
        m.metadata()[p * 16384 + j] == m.pieces[p]->0[j],
{
    assert forall|i: int| 0 <= i < p implies (#[trigger] m.pieces[i]) is Some
        && m.pieces[i]->0.len() == 16384 by {}
    lemma_joined_full(m.pieces, p);
    lemma_joined_prefix(m.pieces, p + 1);
    assert(m.pieces.take(p + 1).drop_last() =~= m.pieces.take(p));
    let upto = joined(m.pieces.take(p + 1));
    assert(m.pieces[p] is Some);
    assert(upto == joined(m.pieces.take(p)) + m.pieces[p]->0);
    assert(upto[p * 16384 + j] == m.pieces[p]->0[j]);
    assert(joined(m.pieces)[p * 16384 + j] == joined(m.pieces).take(upto.len() as int)[p * 16384
        + j]);
}

/// An info dictionary that is served piece by piece is put together again as it
/// was.
pub proof fn law_served_metadata_assembles(m: AssemblerModel, info: Seq<u8>)
    requires
        m.wf(),
        m.total_size == Some(info.len() as u64),
        info.len() <= MAX_METADATA_SIZE,
        forall|p: int|
            0 <= p < m.pieces.len() ==> (#[trigger] m.pieces[p]) is Some && {
                let data = m.pieces[p]->0;
                &&& data.len() <= 16384
                &&& p * 16384 + data.len() <= info.len()
                &&& data.len() < 16384 ==> p * 16384 + data.len() == info.len()
                &&& forall|j: int| 0 <= j < data.len() ==> #[trigger] data[j] == info[p * 16384 + j]
            },
        info.len() > 0,
    ensures
        m.metadata() == info,
{
    let last = m.pieces.len() - 1;
    assert forall|i: int| 0 <= i < last implies (#[trigger] m.pieces[i])->0.len() == 16384 by {
        assert((i + 1) * 16384 < info.len());
    }
    assert(m.pieces[last] is Some);
    assert(m.complete());
    lemma_joined_full(m.pieces, last);
    assert(m.pieces.take(last + 1) =~= m.pieces);
    assert(m.pieces.drop_last() =~= m.pieces.take(last));
    assert(m.metadata().len() == info.len());
    assert forall|x: int| 0 <= x < info.len() implies m.metadata()[x] == info[x] by {
        let p = x / 16384;
        let j = x % 16384;
        assert(p <= last);
        assert(m.pieces[p] is Some);
        assert(j < m.pieces[p]->0.len());
        law_metadata_is_its_pieces(m, p, j);
        assert(m.pieces[p]->0[j] == info[p * 16384 + j]);
    }
    assert(m.metadata() =~= info);
}

/// A piece of metadata that comes is kept as it came and no longer asked for, and
/// the others stay. Once all are here, and not before, what they make up is
/// handed out to be verified. The size that comes with it counts where none was
/// known.
pub proof fn law_metadata_piece_is_kept(
    m: SessionModel,
    slot: PeerSlot,
    piece: u32,
    total_size: u64,
    data: bytes::Bytes,
    now: u64,
)
    requires
        m.wf(),
    ensures
        ({
            let (n, told) = on_event(
                m,
                metadata_word(slot, MetadataMessage::Data { piece, total_size, data }),
                now,
            );
            let a = m.metadata->0;
            let z = n.metadata->0;
            let size = if a.total_size is Some {
                a.total_size
            } else if total_size <= 16_777_216 {
                Some(total_size)
            } else {
                None
            };
            let count = if size is Some {
                (size->0 + 16383) / 16384
            } else {
                0
            };
            &&& m.metadata is None ==> n == m && told.len() == 0
            &&& m.metadata is Some ==> {
                &&& n.peers == m.peers && n.in_progress == m.in_progress
                &&& rest_as_before(m, (SessionModel { metadata: m.metadata, ..n }))
                &&& n.metadata is Some
                &&& z.info_hash == a.info_hash
                &&& z.total_size == size
                &&& z.pieces.len() == count
                &&& piece < count ==> z.pieces[piece as int] == Some(blob(data))
                    && !z.pending.contains_key(piece)
                &&& forall|i: int|
                    0 <= i < count && i != piece ==> #[trigger] z.pieces[i] == (
                    if a.total_size is Some {
                        a.pieces[i]
                    } else {
                        None
                    })
                &&& (piece < count && forall|i: int|
                    0 <= i < count ==> (#[trigger] z.pieces[i]) is Some) ==> told == seq![
                    Deed::VerifyMetadata(z.metadata()),
                ]
                &&& !(piece < count && forall|i: int|
                    0 <= i < count ==> (#[trigger] z.pieces[i]) is Some) ==> told.len() == 0
            }
        }),
{
    let (n, told) = on_event(
        m,
        metadata_word(slot, MetadataMessage::Data { piece, total_size, data }),
        now,
    );
    if m.metadata is Some {
        let z = n.metadata->0;
        if piece < z.pieces.len() {
            assert(z.complete() <==> forall|i: int|
                0 <= i < z.pieces.len() ==> (#[trigger] z.pieces[i]) is Some);
        }
    }
}

proof fn lemma_first_needed_from(m: AssemblerModel, i: u32) -> (r: Option<u32>)
    requires
        m.pieces.len() <= u32::MAX,
        i <= m.pieces.len(),
        forall|j: int| 0 <= j < i ==> !#[trigger] m.needs(j),
    ensures
        m.first_needed(r),
    decreases m.pieces.len() - i,
{
    if i == m.pieces.len() {
        None
    } else if m.needs(i as int) {
        Some(i)
    } else {
        lemma_first_needed_from(m, (i + 1) as u32)
    }
}

/// The first piece that is needed is that.
proof fn lemma_next_needed_is_first(m: AssemblerModel)
    requires
        m.wf(),
    ensures
        m.first_needed(next_needed(m)),
{
    let r = lemma_first_needed_from(m, 0);
    assert(m.first_needed(r));
}

/// Metadata is asked for: what is sent are requests to connected peers for pieces
/// that are neither here nor asked for, each noted as asked of the peer that it
/// was sent to, and nothing else changes.
pub open spec fn metadata_asked(m: SessionModel, n: SessionModel, told: Seq<Deed>) -> bool {
    let a = m.metadata->0;
    let z = n.metadata->0;
    &&& n.peers == m.peers && n.in_progress == m.in_progress
    &&& rest_as_before(m, (SessionModel { metadata: m.metadata, ..n }))
    &&& (n.metadata is Some) == (m.metadata is Some)
    &&& z.info_hash == a.info_hash && z.total_size == a.total_size && z.pieces == a.pieces
    &&& forall|p: u32| #[trigger]
        a.pending.contains_key(p) ==> z.pending.contains_key(p) && z.pending[p] == a.pending[p]
    &&& forall|j: int|
        0 <= j < told.len() ==> {
            &&& (#[trigger] told[j]) matches Deed::Send(
                to,
                PeerNote::SendExtended(ExtensionNote::Metadata(MetadataNote::Request { piece })),
            )
            &&& a.needs(piece as int)
            &&& z.pending.contains_key(piece)
            &&& z.pending[piece] == to
        }
    &&& forall|p: u32|
        #[trigger] z.pending.contains_key(p) && !a.pending.contains_key(p) ==> exists|j: int|
            0 <= j < told.len() && #[trigger] told[j] == Deed::Send(
                z.pending[p],
                PeerNote::SendExtended(ExtensionNote::Metadata(MetadataNote::Request { piece: p })),
            )
}

proof fn lemma_asked_composes(
    l: SessionModel,
    m: SessionModel,
    n: SessionModel,
    first: Seq<Deed>,
    rest: Seq<Deed>,
)
    requires
        metadata_asked(l, m, first),
        metadata_asked(m, n, rest),
        l.metadata is Some,
    ensures
        metadata_asked(l, n, first + rest),
{
    let a = l.metadata->0;
    let b = m.metadata->0;
    let z = n.metadata->0;
    let told = first + rest;
    assert forall|p: u32| #[trigger] a.pending.contains_key(p) implies z.pending.contains_key(p)
        && z.pending[p] == a.pending[p] by {
        assert(b.pending.contains_key(p) && b.pending[p] == a.pending[p]);
        assert(z.pending.contains_key(p) && z.pending[p] == b.pending[p]);
    }
    assert forall|j: int| 0 <= j < told.len() implies {
        &&& (#[trigger] told[j]) matches Deed::Send(
            to,
            PeerNote::SendExtended(ExtensionNote::Metadata(MetadataNote::Request { piece })),
        )
        &&& a.needs(piece as int)
        &&& z.pending.contains_key(piece)
        &&& z.pending[piece] == to
    } by {
        if j < first.len() {
            assert(told[j] == first[j]);
            let piece = first[j]->Send_1->SendExtended_0->Metadata_0->Request_piece;
            assert(b.pending.contains_key(piece));
            assert(z.pending.contains_key(piece));
        } else {
            assert(told[j] == rest[j - first.len()]);
            let piece = told[j]->Send_1->SendExtended_0->Metadata_0->Request_piece;
            assert(b.needs(piece as int));
            if a.pending.contains_key(piece) {
                assert(b.pending.contains_key(piece));
            }
        }
    }
    assert forall|p: u32|
        #[trigger] z.pending.contains_key(p) && !a.pending.contains_key(p) implies exists|j: int|
        0 <= j < told.len() && #[trigger] told[j] == Deed::Send(
            z.pending[p],
            PeerNote::SendExtended(ExtensionNote::Metadata(MetadataNote::Request { piece: p })),
        ) by {
        let want = Deed::Send(
            z.pending[p],
            PeerNote::SendExtended(ExtensionNote::Metadata(MetadataNote::Request { piece: p })),
        );
        if b.pending.contains_key(p) {
            assert(z.pending[p] == b.pending[p]);
            let j = choose|j: int| 0 <= j < first.len() && #[trigger] first[j] == want;
            assert(told[j] == first[j]);
        } else {
            let j = choose|j: int| 0 <= j < rest.len() && #[trigger] rest[j] == want;
            assert(told[first.len() + j] == rest[j]);
        }
    }
}

proof fn lemma_ask_metadata(m: SessionModel, slot: PeerSlot, n: nat)
    requires
        m.wf(),
        m.metadata is Some,
        find_key(m.peers, slot) is Some,
    ensures
        metadata_asked(m, m.ask_metadata(slot, n).0, m.ask_metadata(slot, n).1),
        m.ask_metadata(slot, n).1.len() <= n,
        m.ask_metadata(slot, n).1.len() < n ==> forall|p: int| !#[trigger] m.ask_metadata(
            slot,
            n,
        ).0.metadata->0.needs(p),
        forall|j: int|
            0 <= j < m.ask_metadata(slot, n).1.len() ==> (#[trigger] m.ask_metadata(
                slot,
                n,
            ).1[j])->Send_0 == slot,
    decreases n,
{
    let a = m.metadata->0;
    lemma_next_needed_is_first(a);
    let (end, told) = m.ask_metadata(slot, n);
    if n > 0 {
        if let Some(piece) = next_needed(a) {
            let next = SessionModel { metadata: Some(a.asked(piece, slot)), ..m };
            assert(next.metadata->0.wf());
            assert(next.wf());
            lemma_ask_metadata(next, slot, (n - 1) as nat);
            let (fin, rest) = next.ask_metadata(slot, (n - 1) as nat);
            let first = seq![
                Deed::Send(
                    slot,
                    PeerNote::SendExtended(
                        ExtensionNote::Metadata(MetadataNote::Request { piece }),
                    ),
                ),
            ];
            assert(first[0]->Send_0 == slot);
            assert(metadata_asked(m, next, first));
            lemma_asked_composes(m, next, fin, first, rest);
            assert(told == first + rest);
        }
    }
}

proof fn lemma_ask_metadata_all(m: SessionModel, slots: Seq<PeerSlot>)
    requires
        m.wf(),
        m.metadata is Some,
        m.metadata->0.total_size is Some,
        forall|i: int| 0 <= i < slots.len() ==> find_key(m.peers, #[trigger] slots[i]) is Some,
    ensures
        ({
            let (n, told) = m.ask_metadata_all(slots);
            &&& metadata_asked(m, n, told)
            &&& (forall|p: int| !#[trigger] n.metadata->0.needs(p)) || told.len() == 4 * slots.len()
            &&& forall|j: int|
                0 <= j < told.len() ==> slots.contains((#[trigger] told[j])->Send_0)
        }),
    decreases slots.len(),
{
    lemma_next_needed_is_first(m.metadata->0);
    if slots.len() > 0 && next_needed(m.metadata->0) is Some {
        let (mid, first) = m.ask_metadata_of(slots[0]);
        lemma_ask_metadata(m, slots[0], 4);
        lemma_ask_metadata_keeps(m, slots[0], 4);
        let tail = slots.drop_first();
        assert forall|i: int| 0 <= i < tail.len() implies find_key(
            mid.peers,
            #[trigger] tail[i],
        ) is Some by {
            assert(tail[i] == slots[i + 1]);
        }
        lemma_ask_metadata_all(mid, tail);
        let (end, rest) = mid.ask_metadata_all(tail);
        lemma_asked_composes(m, mid, end, first, rest);
        let told = first + rest;
        assert forall|j: int| 0 <= j < told.len() implies slots.contains(
            (#[trigger] told[j])->Send_0,
        ) by {
            if j < first.len() {
                assert(told[j] == first[j]);
                assert(slots[0] == first[j]->Send_0);
            } else {
                assert(told[j] == rest[j - first.len()]);
                let s = told[j]->Send_0;
                assert(tail.contains(s));
                let x = choose|x: int| 0 <= x < tail.len() && tail[x] == s;
                assert(slots[x + 1] == s);
            }
        }
        if first.len() < 4 {
            lemma_next_needed_is_first(mid.metadata->0);
            if next_needed(mid.metadata->0) is Some {
                assert(mid.metadata->0.needs(next_needed(mid.metadata->0)->0 as int));
            }
            assert(rest.len() == 0);
            assert(end == mid);
        }
    }
}

/// A peer that tells how large the metadata is, is asked for up to four pieces of
/// it that are neither here nor asked for, and for no fewer while there are any;
/// the first size that is told counts. The port that it tells replaces the one in
/// its address.
pub proof fn law_handshake_starts_fetching(
    m: SessionModel,
    slot: PeerSlot,
    metadata_size: Option<u64>,
    listen_port: Option<u16>,
    at: int,
    now: u64,
)
    requires
        m.wf(),
        0 <= at < m.peers.len(),
        m.peers[at].0 == slot,
    ensures
        ({
            let (n, told) = on_event(
                m,
                SessionEvent::Peer(
                    PeerToSession::ExtensionHandshake { slot, metadata_size, listen_port },
                ),
                now,
            );
            let p = m.peers[at].1;
            let a = m.metadata->0;
            let z = n.metadata->0;
            &&& others_as_before(m, n, slot)
            &&& n.peers[at].1 == (PeerModel { addr: n.peers[at].1.addr, ..p })
            &&& p.addr is None ==> n.peers[at].1.addr is None
            &&& (p.addr matches Some(addr) ==> {
                &&& n.peers[at].1.addr is Some
                &&& n.peers[at].1.addr->0.ip == addr.ip
                &&& n.peers[at].1.addr->0.port == (match listen_port {
                    Some(port) => port,
                    None => addr.port,
                })
            })
            &&& n.in_progress == m.in_progress
            &&& rest_as_before(m, (SessionModel { metadata: m.metadata, ..n }))
            &&& m.metadata is None ==> n.metadata is None && told.len() == 0
            &&& m.metadata is Some ==> {
                &&& n.metadata is Some
                &&& z.info_hash == a.info_hash
                &&& a.total_size is Some ==> z.total_size == a.total_size && z.pieces == a.pieces
                &&& (a.total_size is None && metadata_size is Some && metadata_size->0
                    <= 16_777_216) ==> {
                    &&& z.total_size == metadata_size
                    &&& z.pieces.len() == (metadata_size->0 + 16383) / 16384
                    &&& forall|i: int| 0 <= i < z.pieces.len() ==> (#[trigger] z.pieces[i]) is None
                }
                &&& z.total_size is None ==> told.len() == 0
                &&& told.len() <= 4
                &&& (z.total_size is Some && told.len() < 4) ==> forall|p: int|
                    !#[trigger] z.needs(p)
                &&& forall|j: int|
                    0 <= j < told.len() ==> {
                        &&& (#[trigger] told[j]) matches Deed::Send(
                            to,
                            PeerNote::SendExtended(
                                ExtensionNote::Metadata(MetadataNote::Request { piece }),
                            ),
                        )
                        &&& to == slot
                        &&& piece < z.pieces.len()
                        &&& z.pieces[piece as int] is None
                        &&& z.pending.contains_key(piece) && z.pending[piece] == slot
                    }
            }
        }),
{
    lemma_find_unique(m.peers, at);
    let mid = m.told_size(metadata_size).told_port(slot, listen_port);
    assert(mid.metadata is Some ==> mid.metadata->0.wf());
    assert(find_key(mid.peers, slot) == Some(at)) by {
        crate::keyed::lemma_find_same_keys(mid.peers, m.peers, slot);
    }
    if mid.metadata is Some && mid.metadata->0.total_size is Some {
        lemma_find(m.peers, slot);
        assert(mid.wf()) by {
            let sized = m.told_size(metadata_size);
            assert(sized.wf());
            if let Some(i) = find_key(sized.peers, slot) {
                if listen_port is Some && sized.peers[i].1.addr is Some {
                    crate::session::keeps::lemma_set_peer_keeps(
                        sized,
                        i,
                        PeerModel {
                            addr: Some(
                                PeerAddr { ip: sized.peers[i].1.addr->0.ip, port: listen_port->0 },
                            ),
                            ..sized.peers[i].1
                        },
                    );
                }
            }
        }
        lemma_ask_metadata(mid, slot, 4);
    }
}

/// A piece of metadata that a peer refuses is asked for again: nothing that is
/// needed is left unasked for, as far as four pieces per connected peer reach.
pub proof fn law_refused_metadata_is_asked_for_again(
    m: SessionModel,
    slot: PeerSlot,
    piece: u32,
    now: u64,
)
    requires
        m.wf(),
        m.metadata is Some,
        m.metadata->0.total_size is Some,
    ensures
        ({
            let (n, told) = on_event(
                m,
                metadata_word(slot, MetadataMessage::Reject { piece }),
                now,
            );
            let freed = SessionModel {
                metadata: Some(
                    AssemblerModel {
                        pending: m.metadata->0.pending.remove(piece),
                        ..m.metadata->0
                    },
                ),
                ..m
            };
            &&& metadata_asked(freed, n, told)
            &&& (forall|p: int| !#[trigger] n.metadata->0.needs(p)) || told.len() == 4
                * m.peers.len()
        }),
{
    let freed = SessionModel { metadata: Some(m.metadata->0.unasked(piece)), ..m };
    assert(freed.metadata->0.wf());
    assert(freed.wf());
    let slots = freed.slots();
    assert forall|i: int| 0 <= i < slots.len() implies find_key(
        freed.peers,
        #[trigger] slots[i],
    ) is Some by {
        lemma_find_unique(freed.peers, i);
    }
    lemma_ask_metadata_all(freed, slots);
}

/// Metadata that turned out no good is fetched anew from the start, and its size
/// stays known; after the third time it is given up, and an alert says so.
pub proof fn law_bad_metadata_is_fetched_anew(
    m: SessionModel,
    digest: [u8; 20],
    parsed: Result<Info, String>,
    now: u64,
)
    requires
        m.wf(),
        m.metadata is Some,
        m.failures < u32::MAX,
        digest@ != m.metadata->0.info_hash || parsed is Err,
    ensures
        ({
            let (n, told) = on_event(m, SessionEvent::MetadataVerified { digest, parsed }, now);
            let a = m.metadata->0;
            let z = n.metadata->0;
            &&& n.failures == m.failures + 1
            &&& n.peers == m.peers && n.in_progress == m.in_progress
            &&& rest_as_before(
                m,
                (SessionModel { metadata: m.metadata, failures: m.failures, ..n }),
            )
            &&& m.failures >= 3 ==> n.metadata is None && told == seq![
                Deed::Raise(
                    Alert::Error { torrent: m.id, code: AlertErrorCode::MetadataVerifyExhausted },
                ),
            ]
            &&& m.failures < 3 ==> {
                &&& n.metadata is Some
                &&& z.info_hash == m.info_hash
                &&& z.total_size == a.total_size
                &&& z.pieces.len() == a.pieces.len()
                &&& forall|i: int| 0 <= i < z.pieces.len() ==> (#[trigger] z.pieces[i]) is None
                &&& a.total_size is Some ==> {
                    ||| forall|p: int| !#[trigger] z.needs(p)
                    ||| told.len() == 4 * m.peers.len()
                }
                &&& a.total_size is None ==> told.len() == 0
            }
        }),
{
    let a = m.metadata->0;
    if m.failures < 3 {
        let clean = AssemblerModel::fresh(m.info_hash);
        let again = match a.total_size {
            Some(size) => clean.sized(size),
            None => clean,
        };
        let next = SessionModel {
            failures: (m.failures + 1) as u32,
            metadata: Some(again),
            ..m
        };
        assert(again.wf());
        assert(next.wf());
        let slots = next.slots();
        assert forall|i: int| 0 <= i < slots.len() implies find_key(
            next.peers,
            #[trigger] slots[i],
        ) is Some by {
            lemma_find_unique(next.peers, i);
        }
        lemma_next_needed_is_first(again);
        if a.total_size is Some {
            lemma_ask_metadata_all(next, slots);
        } else {
            assert(next_needed(again) is None);
        }
    }
}

/// Interest in each peer of `slots` follows its pieces, and nothing else changes.
proof fn lemma_interest_all(m: SessionModel, slots: Seq<PeerSlot>)
    requires
        m.wf(),
    ensures
        ({
            let (n, told) = m.interest_all(slots);
            &&& n.in_progress == m.in_progress && rest_as_before(m, n)
            &&& n.peers.len() == m.peers.len()
            &&& forall|i: int|
                0 <= i < m.peers.len() ==> {
                    &&& (#[trigger] n.peers[i]).0 == m.peers[i].0
                    &&& n.peers[i].1 == (PeerModel {
                        we_are_interested: n.peers[i].1.we_are_interested,
                        ..m.peers[i].1
                    })
                    &&& slots.contains(m.peers[i].0) ==> n.peers[i].1.we_are_interested == m.wants(
                        m.peers[i].1.have,
                    )
                    &&& !slots.contains(m.peers[i].0) ==> n.peers[i] == m.peers[i]
                }
            &&& forall|j: int|
                0 <= j < told.len() ==> {
                    &&& (#[trigger] told[j]) matches Deed::Send(to, PeerNote::SetInterested(_))
                    &&& slots.contains(to)
                }
        }),
    decreases slots.len(),
{
    if slots.len() > 0 {
        let front = slots.drop_last();
        let slot = slots.last();
        lemma_interest_all(m, front);
        lemma_interest_all_keeps(m, front);
        let (mid, first) = m.interest_all(front);
        let (end, last) = mid.interest(slot);
        lemma_find(mid.peers, slot);
        let told = first + last;
        assert forall|i: int| 0 <= i < m.peers.len() implies {
            &&& (#[trigger] end.peers[i]).0 == m.peers[i].0
            &&& end.peers[i].1 == (PeerModel {
                we_are_interested: end.peers[i].1.we_are_interested,
                ..m.peers[i].1
            })
            &&& slots.contains(m.peers[i].0) ==> end.peers[i].1.we_are_interested == m.wants(
                m.peers[i].1.have,
            )
            &&& !slots.contains(m.peers[i].0) ==> end.peers[i] == m.peers[i]
        } by {
            assert(mid.peers[i].0 == m.peers[i].0);
            assert(slots[slots.len() - 1] == slot);
            if m.peers[i].0 == slot {
                lemma_find_unique(mid.peers, i);
                assert(slots.contains(slot));
            } else if front.contains(m.peers[i].0) {
                let x = choose|x: int| 0 <= x < front.len() && front[x] == m.peers[i].0;
                assert(slots[x] == m.peers[i].0);
            } else if slots.contains(m.peers[i].0) {
                let x = choose|x: int| 0 <= x < slots.len() && slots[x] == m.peers[i].0;
                assert(front[x] == m.peers[i].0);
            }
        }
        assert forall|j: int| 0 <= j < told.len() implies {
            &&& (#[trigger] told[j]) matches Deed::Send(to, PeerNote::SetInterested(_))
            &&& slots.contains(to)
        } by {
            if j < first.len() {
                assert(told[j] == first[j]);
                let s = first[j]->Send_0;
                assert(front.contains(s));
                let x = choose|x: int| 0 <= x < front.len() && front[x] == s;
                assert(slots[x] == s);
            } else {
                assert(told[j] == last[j - first.len()]);
                assert(slots[slots.len() - 1] == slot);
            }
        }
    }
}

/// Metadata that has the hash and can be used is what the session goes on with:
/// its pieces, their hashes and lengths are those that the metadata declares, none
/// of them is here, and a peer has all of them if it said so and else none. We
/// are interested in exactly the peers that have any. The metadata itself can be
/// served from then on.
pub proof fn law_good_metadata_is_taken(
    m: SessionModel,
    digest: [u8; 20],
    parsed: Result<Info, String>,
    now: u64,
)
    requires
        m.wf(),
        m.metadata is Some,
        m.metadata->0.total_size is Some,
        m.metadata->0.complete(),
        digest@ == m.metadata->0.info_hash,
        parsed is Ok,
        parsed->Ok_0.v1 is Some,
        parsed->Ok_0.v1->0.pieces@.len() / 20 <= 2_000_000,
        parsed->Ok_0.piece_length <= 67_108_864,
        metadata_fits(m, digest@, by_ref(parsed)),
    ensures
        ({
            let (n, told) = on_event(m, SessionEvent::MetadataVerified { digest, parsed }, now);
            let info = parsed->Ok_0;
            let count = info.v1->0.pieces@.len() / 20;
            &&& n.info_dict == Some(m.metadata->0.metadata())
            &&& n.metadata is None
            &&& n.failures == m.failures
            &&& n.params.piece_count == count
            &&& n.params.piece_length == info.piece_length
            &&& n.params.total_length == info.v1->0.files.total()
            &&& n.params.piece_hashes == info.v1->0.pieces@
            &&& n.params.private == info.private
            &&& n.picker.have.len() == count
            &&& forall|x: int| 0 <= x < count ==> !#[trigger] n.picker.have[x]
            &&& n.peers.len() == m.peers.len()
            &&& forall|i: int|
                0 <= i < m.peers.len() ==> {
                    let all = m.peers[i].1.announced_have_all;
                    &&& (#[trigger] n.peers[i]).0 == m.peers[i].0
                    &&& n.peers[i].1 == (PeerModel {
                        have: n.peers[i].1.have,
                        we_are_interested: all,
                        ..m.peers[i].1
                    })
                    &&& n.peers[i].1.have.len() == count
                    &&& forall|x: int| 0 <= x < count ==> #[trigger] n.peers[i].1.have[x] == all
                }
            &&& n.state == m.state && n.paused == m.paused && n.in_progress == m.in_progress
            &&& n.pex == m.pex && n.discovered == m.discovered
            &&& told.len() > 0
            &&& told[0] == Deed::Raise(Alert::MetadataReceived { torrent: m.id })
            &&& forall|j: int|
                0 < j < told.len() ==> (#[trigger] told[j]) matches Deed::Send(
                    _,
                    PeerNote::SetInterested(_),
                )
        }),
{
    let info = parsed->Ok_0;
    let params = ParamsModel {
        piece_count: (info.v1->0.pieces@.len() / 20) as u32,
        piece_length: info.piece_length,
        total_length: info.v1->0.files.total() as u64,
        piece_hashes: info.v1->0.pieces@,
        private: info.private,
    };
    let a = m.metadata->0;
    lemma_with_metadata_keeps(m, a.metadata(), params);
    let next = m.with_metadata(a.metadata(), params);
    let slots = next.slots();
    lemma_interest_all(next, slots);
    lemma_interest_all_keeps(next, slots);
    let (n, told) = on_event(m, SessionEvent::MetadataVerified { digest, parsed }, now);
    let rest = next.interest_all(slots).1;
    assert(told =~= seq![Deed::Raise(Alert::MetadataReceived { torrent: m.id })] + rest);
    assert forall|j: int| 0 < j < told.len() implies (#[trigger] told[j]) matches Deed::Send(
        _,
        PeerNote::SetInterested(_),
    ) by {
        assert(told[j] == rest[j - 1]);
    }
    assert forall|i: int| 0 <= i < m.peers.len() implies {
        let all = m.peers[i].1.announced_have_all;
        &&& (#[trigger] n.peers[i]).0 == m.peers[i].0
        &&& n.peers[i].1 == (PeerModel {
            have: n.peers[i].1.have,
            we_are_interested: all,
            ..m.peers[i].1
        })
        &&& n.peers[i].1.have.len() == params.piece_count
        &&& forall|x: int| 0 <= x < params.piece_count ==> #[trigger] n.peers[i].1.have[x] == all
    } by {
        assert(slots[i] == next.peers[i].0);
        assert(slots.contains(next.peers[i].0));
        let have = next.peers[i].1.have;
        if m.peers[i].1.announced_have_all {
            assert(have[0] && !next.picker.have[0]);
            assert(next.wants(have));
        }
    }
}

/// A peer exchange message from `slot`.
pub open spec fn pex_word(slot: PeerSlot, msg: PexMessage) -> SessionEvent {
    SessionEvent::Peer(
        PeerToSession::ExtensionMessage { slot, input: ExtensionInput::Pex(Some(msg)) },
    )
}

/// A peer exchange message is taken where peers are exchanged, the last one from
/// the same peer was taken ten seconds ago or more, and more peers are wanted. Then
/// the addresses that it names as added are found, in its order, as many as there
/// is room for, behind those found before. Any other message changes nothing.
pub proof fn law_exchanged_addresses_are_found(
    m: SessionModel,
    slot: PeerSlot,
    msg: PexMessage,
    now: u64,
)
    requires
        m.wf(),
    ensures
        ({
            let (n, told) = on_event(m, pex_word(slot, msg), now);
            let taken = m.pex.enabled && m.peers.len() < m.peer_cap && (
            !m.pex.received.contains_key(slot.0) || now - m.pex.received[slot.0]
                >= 10_000_000_000);
            let room = m.peer_cap - m.peers.len();
            let found = n.discovered.len() - m.discovered.len();
            &&& told.len() == 0
            &&& !taken ==> n == m
            &&& taken ==> {
                &&& found == msg.added@.len() || (found == room && room < msg.added@.len())
                &&& found <= room
                &&& forall|i: int|
                    0 <= i < m.discovered.len() ==> #[trigger] n.discovered[i] == m.discovered[i]
                &&& forall|i: int|
                    0 <= i < found ==> #[trigger] n.discovered[m.discovered.len() + i]
                        == msg.added@[i].addr
                &&& n.pex == (PexModel { received: n.pex.received, ..m.pex })
                &&& n.pex.received == m.pex.received.insert(slot.0, now)
                &&& n.peers == m.peers && n.in_progress == m.in_progress
                &&& rest_as_before(
                    m,
                    (SessionModel { pex: m.pex, discovered: m.discovered, ..n }),
                )
            }
        }),
{
}

proof fn lemma_addrs_known(peers: Seq<(PeerSlot, PeerModel)>, a: PeerAddr)
    ensures
        addrs_of(addrs_known(peers)).contains(a) <==> exists|i: int|
            0 <= i < peers.len() && (#[trigger] peers[i]).1.addr == Some(a),
    decreases peers.len(),
{
    let all = addrs_of(addrs_known(peers));
    if peers.len() > 0 {
        let front = peers.drop_last();
        let some = addrs_of(addrs_known(front));
        lemma_addrs_known(front, a);
        match peers.last().1.addr {
            Some(x) => {
                assert(all =~= some.push(x));
                crate::session::pex::lemma_push_contains(some, x, a);
            },
            None => {
                assert(all =~= some);
            },
        }
        if exists|i: int| 0 <= i < peers.len() && (#[trigger] peers[i]).1.addr == Some(a) {
            let i = choose|i: int| 0 <= i < peers.len() && (#[trigger] peers[i]).1.addr == Some(a);
            if i < front.len() {
                assert(front[i].1.addr == Some(a));
            }
        }
        if some.contains(a) {
            let i = choose|i: int| 0 <= i < front.len() && (#[trigger] front[i]).1.addr == Some(a);
            assert(peers[i].1.addr == Some(a));
        }
        assert(peers[peers.len() - 1] == peers.last());
    }
}

proof fn lemma_pex_to(m: SessionModel, slots: Seq<PeerSlot>, note: PeerNote, now: u64)
    requires
        slots.no_duplicates(),
    ensures
        ({
            let (n, told) = m.pex_to(slots, note, now);
            &&& n == (SessionModel { pex: n.pex, ..m })
            &&& n.pex == (PexModel { sent: n.pex.sent, ..m.pex })
            &&& forall|j: int|
                0 <= j < told.len() ==> {
                    &&& (#[trigger] told[j]) matches Deed::Send(to, what)
                    &&& what == note
                    &&& slots.contains(to)
                    &&& m.pex.due(to, now)
                }
            &&& forall|i: int|
                0 <= i < slots.len() && m.pex.due(#[trigger] slots[i], now) ==> {
                    &&& exists|j: int|
                        0 <= j < told.len() && #[trigger] told[j] == Deed::Send(slots[i], note)
                    &&& n.pex.sent.contains_key(slots[i].0) && n.pex.sent[slots[i].0] == now
                }
            &&& forall|s: u64|
                (forall|i: int|
                    0 <= i < slots.len() && (#[trigger] slots[i]).0 == s ==> !m.pex.due(
                        slots[i],
                        now,
                    )) ==> (#[trigger] n.pex.sent.contains_key(s) == m.pex.sent.contains_key(s)
                    && n.pex.sent[s] == m.pex.sent[s])
        }),
    decreases slots.len(),
{
    if slots.len() > 0 {
        let front = slots.drop_last();
        let slot = slots.last();
        let (mid, first) = m.pex_to(front, note, now);
        let (n, told) = m.pex_to(slots, note, now);
        lemma_pex_to(m, front, note, now);
        assert(slots[slots.len() - 1] == slot);
        assert(!front.contains(slot)) by {
            if front.contains(slot) {
                let x = choose|x: int| 0 <= x < front.len() && front[x] == slot;
                assert(slots[x] == slots[slots.len() - 1]);
            }
        }
        assert(mid.pex.due(slot, now) == m.pex.due(slot, now)) by {
            assert forall|i: int| 0 <= i < front.len() && (#[trigger] front[i]).0 == slot.0 implies !m.pex.due(
                front[i],
                now,
            ) by {
                assert(front[i] == slot);
                assert(front.contains(slot));
            }
            assert(mid.pex.sent.contains_key(slot.0) == m.pex.sent.contains_key(slot.0));
        }
        assert forall|j: int| 0 <= j < told.len() implies {
            &&& (#[trigger] told[j]) matches Deed::Send(to, what)
            &&& what == note
            &&& slots.contains(to)
            &&& m.pex.due(to, now)
        } by {
            if j < first.len() {
                assert(told[j] == first[j]);
                let to = first[j]->Send_0;
                assert(front.contains(to));
                let x = choose|x: int| 0 <= x < front.len() && front[x] == to;
                assert(slots[x] == to);
            }
        }
        assert forall|i: int| 0 <= i < slots.len() && m.pex.due(#[trigger] slots[i], now) implies {
            &&& exists|j: int|
                0 <= j < told.len() && #[trigger] told[j] == Deed::Send(slots[i], note)
            &&& n.pex.sent.contains_key(slots[i].0) && n.pex.sent[slots[i].0] == now
        } by {
            if i < front.len() {
                assert(front[i] == slots[i]);
                let j = choose|j: int|
                    0 <= j < first.len() && #[trigger] first[j] == Deed::Send(front[i], note);
                assert(told[j] == first[j]);
            } else {
                assert(told[first.len() as int] == Deed::Send(slot, note));
            }
        }
        assert forall|s: u64|
            (forall|i: int|
                0 <= i < slots.len() && (#[trigger] slots[i]).0 == s ==> !m.pex.due(
                    slots[i],
                    now,
                )) implies (#[trigger] n.pex.sent.contains_key(s) == m.pex.sent.contains_key(s)
            && n.pex.sent[s] == m.pex.sent[s]) by {
            assert forall|i: int| 0 <= i < front.len() && (#[trigger] front[i]).0 == s implies !m.pex.due(
                front[i],
                now,
            ) by {
                assert(slots[i] == front[i]);
            }
            assert(mid.pex.sent.contains_key(s) == m.pex.sent.contains_key(s));
            if slot.0 == s {
                assert(!m.pex.due(slots[slots.len() - 1], now));
            }
        }
    }
}

/// A round of peer exchange tells each connected peer that heard nothing for a
/// minute the same: which connected peers it was not told of before, and which of
/// those it was told of are gone, fifty of each at most and no fewer while there
/// are more. What is told is remembered, and so is when. Where nothing changed, or
/// peers are not exchanged, nobody hears anything.
pub proof fn law_exchange_tells_what_changed(m: SessionModel, now: u64)
    requires
        m.wf(),
    ensures
        ({
            let (n, told) = on_event(m, SessionEvent::PexTick, now);
            &&& !m.pex.enabled ==> n == m && told.len() == 0
            &&& n == (SessionModel { pex: n.pex, ..m })
            &&& n.pex.enabled == m.pex.enabled && n.pex.received == m.pex.received
            &&& n.pex.advertised == m.pex.advertised ==> told.len() == 0
            &&& m.pex.enabled ==> exists|added: Seq<PexPeer>, dropped: Seq<PeerAddr>| #[trigger]
                told_of(m, n, told, added, dropped, now)
        }),
{
    let (n, told) = on_event(m, SessionEvent::PexTick, now);
    let current = addrs_of(m.known_addrs());
    let names = m.pex.added(current);
    let dropped = m.pex.dropped(current);
    let added = Seq::new(names.len(), |i: int| PexPeer { addr: names[i], flags: 0 });
    lemma_distinct(current);
    lemma_without(distinct(current), m.pex.advertised);
    lemma_without(m.pex.advertised, current);
    lemma_without(m.pex.advertised, dropped);
    let fresh = without(distinct(current), m.pex.advertised);
    let stale = without(m.pex.advertised, current);
    assert forall|a: PeerAddr| #[trigger] current.contains(a) == connected_at(m, a) by {
        lemma_addrs_known(m.peers, a);
    }
    let slots = m.slots();
    assert(slots.no_duplicates()) by {
        assert forall|i: int, j: int| 0 <= i < slots.len() && 0 <= j < slots.len() && i != j implies slots[i]
            != slots[j] by {
            assert(m.peers[i].0 != m.peers[j].0);
        }
    }
    assert forall|i: int| 0 <= i < added.len() implies {
        &&& (#[trigger] added[i]).flags == 0
        &&& connected_at(m, added[i].addr)
        &&& !m.pex.advertised.contains(added[i].addr)
    } by {
        assert(names[i] == fresh[i]);
        assert(fresh.contains(fresh[i]));
        assert(current.contains(names[i]));
    }
    assert forall|i: int| 0 <= i < dropped.len() implies {
        &&& m.pex.advertised.contains(#[trigger] dropped[i])
        &&& !connected_at(m, dropped[i])
    } by {
        assert(dropped[i] == stale[i]);
        assert(stale.contains(stale[i]));
        assert(!current.contains(dropped[i]));
    }
    if added.len() < 50 {
        assert forall|a: PeerAddr| #[trigger] connected_at(m, a) && !m.pex.advertised.contains(
            a,
        ) implies exists|i: int| 0 <= i < added.len() && (#[trigger] added[i]).addr == a by {
            assert(current.contains(a));
            assert(fresh.contains(a));
            let i = choose|i: int| 0 <= i < fresh.len() && fresh[i] == a;
            assert(added[i].addr == a);
        }
    }
    if dropped.len() < 50 {
        assert forall|a: PeerAddr| #[trigger] m.pex.advertised.contains(a) && !connected_at(
            m,
            a,
        ) implies dropped.contains(a) by {
            assert(!current.contains(a));
            assert(stale.contains(a));
        }
    }
    if m.pex.enabled && !m.pex.unchanged(current) {
        let note = PeerNote::SendExtended(ExtensionNote::Pex(added, dropped));
        let mid = SessionModel { pex: m.pex.told(current), ..m };
        lemma_pex_to(mid, slots, note, now);
        let kept = without(m.pex.advertised, dropped);
        assert(n.pex.advertised == kept + names);
        assert forall|a: PeerAddr| #[trigger] n.pex.advertised.contains(a) == ((
        m.pex.advertised.contains(a) && !dropped.contains(a)) || (exists|i: int|
            0 <= i < added.len() && (#[trigger] added[i]).addr == a)) by {
            if n.pex.advertised.contains(a) {
                let x = choose|x: int| 0 <= x < n.pex.advertised.len() && n.pex.advertised[x] == a;
                if x < kept.len() {
                    assert(kept.contains(a));
                } else {
                    assert(added[x - kept.len()].addr == a);
                }
            }
            if m.pex.advertised.contains(a) && !dropped.contains(a) {
                assert(kept.contains(a));
                let x = choose|x: int| 0 <= x < kept.len() && kept[x] == a;
                assert(n.pex.advertised[x] == a);
            }
            if exists|i: int| 0 <= i < added.len() && (#[trigger] added[i]).addr == a {
                let i = choose|i: int| 0 <= i < added.len() && (#[trigger] added[i]).addr == a;
                assert(n.pex.advertised[kept.len() + i] == a);
            }
        }
        if n.pex.advertised == m.pex.advertised && told.len() > 0 {
            if added.len() > 0 {
                assert(!m.pex.advertised.contains(added[0].addr));
                assert(n.pex.advertised.contains(added[0].addr));
            } else {
                assert(dropped.len() > 0);
                assert(m.pex.advertised.contains(dropped[0]));
                assert(dropped.contains(dropped[0]));
                assert(!n.pex.advertised.contains(dropped[0]));
            }
        }
        assert forall|i: int|
            0 <= i < m.peers.len() && quiet_for_a_minute(m, (#[trigger] m.peers[i]).0, now) implies {
            &&& exists|j: int|
                0 <= j < told.len() && #[trigger] told[j] == Deed::Send(m.peers[i].0, note)
            &&& n.pex.sent.contains_key(m.peers[i].0.0) && n.pex.sent[m.peers[i].0.0] == now
        } by {
            assert(slots[i] == m.peers[i].0);
            assert(mid.pex.due(slots[i], now));
        }
        assert forall|j: int| 0 <= j < told.len() implies {
            &&& (#[trigger] told[j]) matches Deed::Send(to, what)
            &&& what == note
            &&& quiet_for_a_minute(m, to, now)
            &&& exists|i: int| 0 <= i < m.peers.len() && (#[trigger] m.peers[i]).0 == to
        } by {
            let to = told[j]->Send_0;
            assert(slots.contains(to));
            let i = choose|i: int| 0 <= i < slots.len() && slots[i] == to;
            assert(m.peers[i].0 == to);
            assert(mid.pex.due(to, now));
        }
        assert(told_of(m, n, told, added, dropped, now));
    } else if m.pex.enabled {
        assert(told_of(m, n, told, added, dropped, now));
    }
}

/// A connected peer has this address.
pub open spec fn connected_at(m: SessionModel, a: PeerAddr) -> bool {
    exists|i: int| 0 <= i < m.peers.len() && (#[trigger] m.peers[i]).1.addr == Some(a)
}

/// The peer heard nothing of other peers for a minute.
pub open spec fn quiet_for_a_minute(m: SessionModel, slot: PeerSlot, now: u64) -> bool {
    !m.pex.sent.contains_key(slot.0) || now - m.pex.sent[slot.0] >= 60_000_000_000
}

/// What a round of peer exchange tells.
pub open spec fn told_of(
    m: SessionModel,
    n: SessionModel,
    told: Seq<Deed>,
    added: Seq<PexPeer>,
    dropped: Seq<PeerAddr>,
    now: u64,
) -> bool {
    let note = PeerNote::SendExtended(ExtensionNote::Pex(added, dropped));
    &&& added.len() <= 50 && dropped.len() <= 50
    &&& forall|i: int|
        0 <= i < added.len() ==> {
            &&& (#[trigger] added[i]).flags == 0
            &&& connected_at(m, added[i].addr)
            &&& !m.pex.advertised.contains(added[i].addr)
        }
    &&& forall|i: int|
        0 <= i < dropped.len() ==> {
            &&& m.pex.advertised.contains(#[trigger] dropped[i])
            &&& !connected_at(m, dropped[i])
        }
    &&& added.len() < 50 ==> forall|a: PeerAddr| #[trigger]
        connected_at(m, a) && !m.pex.advertised.contains(a) ==> exists|i: int|
            0 <= i < added.len() && (#[trigger] added[i]).addr == a
    &&& dropped.len() < 50 ==> forall|a: PeerAddr| #[trigger]
        m.pex.advertised.contains(a) && !connected_at(m, a) ==> dropped.contains(a)
    &&& (added.len() == 0 && dropped.len() == 0) ==> n == m && told.len() == 0
    &&& (added.len() > 0 || dropped.len() > 0) ==> {
        &&& forall|a: PeerAddr| #[trigger]
            n.pex.advertised.contains(a) == ((m.pex.advertised.contains(a) && !dropped.contains(a))
                || (exists|i: int| 0 <= i < added.len() && (#[trigger] added[i]).addr == a))
        &&& forall|i: int|
            0 <= i < m.peers.len() && quiet_for_a_minute(m, (#[trigger] m.peers[i]).0, now) ==> {
                &&& exists|j: int|
                    0 <= j < told.len() && #[trigger] told[j] == Deed::Send(m.peers[i].0, note)
                &&& n.pex.sent.contains_key(m.peers[i].0.0) && n.pex.sent[m.peers[i].0.0] == now
            }
        &&& forall|j: int|
            0 <= j < told.len() ==> {
                &&& (#[trigger] told[j]) matches Deed::Send(to, what)
                &&& what == note
                &&& quiet_for_a_minute(m, to, now)
                &&& exists|i: int| 0 <= i < m.peers.len() && (#[trigger] m.peers[i]).0 == to
            }
    }
}

} // verus!
