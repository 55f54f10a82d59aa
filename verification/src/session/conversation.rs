//! What holds of the words of one connection: what the session says goes out,
//! what the peer says reaches the session, and requests are accounted for.
use crate::blob::blob;
use crate::session::messages::{DisconnectReason, ExtensionNote, PeerNote, PeerToSession};
use crate::session::params::BlockRequest;
use crate::session::peer::{
    first_place, sends, ConnModel, ExtensionKind, Incoming, Message, Outgoing,
};
use vstd::prelude::*;

verus! {

/// Where a request stands that is under way.
proof fn lemma_place(s: Seq<BlockRequest>, req: BlockRequest)
    requires
        s.contains(req),
    ensures
        0 <= first_place(s, req) < s.len(),
        s[first_place(s, req)] == req,
    decreases s.len(),
{
    if s.len() > 0 && s[0] != req {
        let t = s.drop_first();
        let i = choose|i: int| 0 <= i < s.len() && s[i] == req;
        assert(t[i - 1] == req);
        lemma_place(t, req);
        assert(t[first_place(t, req)] == s[first_place(t, req) + 1]);
    }
}

/// `req` is no longer under way, and every other request is as it was. Nothing
/// else changes.
pub open spec fn settled_alone(m: ConnModel, n: ConnModel, req: BlockRequest) -> bool {
    &&& n == (ConnModel { in_flight: n.in_flight, ..m })
    &&& !n.in_flight.contains(req)
    &&& forall|r: BlockRequest| r != req ==> (#[trigger] n.in_flight.contains(r)
        <==> m.in_flight.contains(r))
    &&& m.in_flight.contains(req) ==> n.in_flight.len() == m.in_flight.len() - 1
    &&& !m.in_flight.contains(req) ==> n.in_flight.len() == m.in_flight.len()
}

proof fn lemma_settled_alone(m: ConnModel, req: BlockRequest)
    requires
        m.wf(),
    ensures
        settled_alone(m, m.settled(req), req),
{
    let n = m.settled(req);
    if m.in_flight.contains(req) {
        lemma_place(m.in_flight, req);
        let at = first_place(m.in_flight, req);
        if n.in_flight.contains(req) {
            let i = choose|i: int| 0 <= i < n.in_flight.len() && n.in_flight[i] == req;
            let j = if i < at { i } else { i + 1 };
            assert(m.in_flight[j] == req);
        }
        assert forall|r: BlockRequest| r != req implies (#[trigger] n.in_flight.contains(r)
            <==> m.in_flight.contains(r)) by {
            if n.in_flight.contains(r) {
                let i = choose|i: int| 0 <= i < n.in_flight.len() && n.in_flight[i] == r;
                let j = if i < at { i } else { i + 1 };
                assert(m.in_flight[j] == r);
            }
            if m.in_flight.contains(r) {
                let j = choose|j: int| 0 <= j < m.in_flight.len() && m.in_flight[j] == r;
                let i = if j < at { j } else { j - 1 };
                assert(n.in_flight[i] == r);
            }
        }
    }
}

/// A request goes out, and is under way, exactly if there is room for it and it
/// is not under way yet. Taking one back goes out exactly if it is under way, and
/// it is no longer.
pub proof fn law_requests_go_out_once(m: ConnModel, req: BlockRequest, ask: Outgoing, cancel: Outgoing)
    requires
        m.wf(),
        sends(ask, m.on_command(Some(PeerNote::Request(req))).1),
        sends(cancel, m.on_command(Some(PeerNote::Cancel(req))).1),
    ensures
        ({
            let n = m.on_command(Some(PeerNote::Request(req))).0;
            let fits = m.in_flight.len() < m.max_in_flight && !m.in_flight.contains(req);
            &&& fits ==> ask == Outgoing::Send(Message::Request(req))
            &&& !fits ==> ask is Nothing && n == m
            &&& fits ==> n == (ConnModel { in_flight: m.in_flight.push(req), ..m })
        }),
        ({
            let n = m.on_command(Some(PeerNote::Cancel(req))).0;
            &&& m.in_flight.contains(req) ==> cancel == Outgoing::Send(Message::Cancel(req))
            &&& !m.in_flight.contains(req) ==> cancel is Nothing
            &&& settled_alone(m, n, req)
        }),
{
    lemma_settled_alone(m, req);
}

/// Interest goes out when it changes, and the connection ends when the session
/// says so or is gone.
pub proof fn law_interest_and_end_go_out(
    m: ConnModel,
    interested: bool,
    word: Outgoing,
    last: Outgoing,
    gone: Outgoing,
)
    requires
        sends(word, m.on_command(Some(PeerNote::SetInterested(interested))).1),
        sends(last, m.on_command(Some(PeerNote::Shutdown)).1),
        sends(gone, m.on_command(None).1),
    ensures
        m.am_interested == interested ==> word is Nothing,
        (m.am_interested != interested && interested) ==> word == Outgoing::Send(
            Message::Interested,
        ),
        (m.am_interested != interested && !interested) ==> word == Outgoing::Send(
            Message::NotInterested,
        ),
        m.on_command(Some(PeerNote::SetInterested(interested))).0 == (ConnModel {
            am_interested: interested,
            ..m
        }),
        last == Outgoing::Exit(DisconnectReason::Shutdown),
        gone == Outgoing::Exit(DisconnectReason::Shutdown),
{
    assert(m.am_interested == interested ==> (ConnModel { am_interested: interested, ..m }) =~= m);
}

/// What the session says of its pieces, of choking and of blocks goes out as it
/// is said, and the connection stays as it is: a block with its request and as many
/// bytes as it costs, a refusal where both sides speak the Fast extension.
pub proof fn law_other_words_go_out_as_said(m: ConnModel, note: PeerNote, out: Outgoing)
    requires
        sends(out, m.on_command(Some(note)).1),
        note is Have || note is SendBitfield || note is SendHaveAll || note is SendHaveNone
            || note is Choke || note is Unchoke || note is BlockReady || note is RejectRequest,
        note matches PeerNote::BlockReady { data, .. } ==> data.len() <= u64::MAX,
    ensures
        m.on_command(Some(note)).0 == m,
        note matches PeerNote::Have(piece) ==> out == Outgoing::Send(Message::Have(piece)),
        note matches PeerNote::SendBitfield(bits) ==> (out matches Outgoing::Send(
            Message::Bitfield(b),
        ) && blob(b) == bits),
        note is SendHaveAll ==> out == Outgoing::Send(Message::HaveAll),
        note is SendHaveNone ==> out == Outgoing::Send(Message::HaveNone),
        note is Choke ==> out == Outgoing::Send(Message::Choke),
        note is Unchoke ==> out == Outgoing::Send(Message::Unchoke),
        note matches PeerNote::BlockReady { req, data } ==> (out matches Outgoing::SendBlock {
            req: r,
            data: d,
            cost,
        } && r == req && blob(d) == data && cost == data.len()),
        note matches PeerNote::RejectRequest(req) ==> {
            &&& m.fast_ext ==> out == Outgoing::Send(Message::RejectRequest(req))
            &&& !m.fast_ext ==> out is Nothing
        },
{
}

/// An extension message goes out under the number that the peer gave that
/// extension, and not at all where it gave none.
pub proof fn law_extension_words_use_their_number(m: ConnModel, ext: ExtensionNote, out: Outgoing)
    requires
        sends(out, m.on_command(Some(PeerNote::SendExtended(ext))).1),
    ensures
        m.on_command(Some(PeerNote::SendExtended(ext))).0 == m,
        ({
            let number = match m.extensions {
                None => None,
                Some(remote) => if ext is Metadata {
                    remote.ut_metadata
                } else {
                    remote.ut_pex
                },
            };
            &&& number is None ==> out is Nothing
            &&& (number matches Some(id) ==> (out matches Outgoing::SendExtended { id: n, payload }
                && n == id && payload@ == ext))
        }),
{
}

/// What the peer says of choking, interest, pieces and requests reaches the
/// session as it was said, from this connection.
pub proof fn law_peer_words_reach_the_session(m: ConnModel, msg: Message)
    requires
        m.wf(),
    ensures
        msg is Choke ==> m.incoming(msg) == Incoming::Event(
            PeerToSession::Choked { slot: m.slot },
        ),
        msg is Unchoke ==> m.incoming(msg) == Incoming::Event(
            PeerToSession::Unchoked { slot: m.slot },
        ),
        msg is Interested ==> m.incoming(msg) == Incoming::Event(
            PeerToSession::Interested { slot: m.slot },
        ),
        msg is NotInterested ==> m.incoming(msg) == Incoming::Event(
            PeerToSession::NotInterested { slot: m.slot },
        ),
        msg matches Message::Have(piece) ==> m.incoming(msg) == Incoming::Event(
            PeerToSession::Have { slot: m.slot, piece },
        ),
        msg matches Message::Bitfield(bytes) ==> m.incoming(msg) == Incoming::Event(
            PeerToSession::Bitfield { slot: m.slot, bytes },
        ),
        msg is HaveAll ==> m.incoming(msg) == Incoming::Event(
            PeerToSession::HaveAll { slot: m.slot },
        ),
        msg is HaveNone ==> m.incoming(msg) == Incoming::Event(
            PeerToSession::HaveNone { slot: m.slot },
        ),
        msg matches Message::Request(req) ==> m.incoming(msg) == Incoming::Event(
            PeerToSession::BlockRequested { slot: m.slot, req },
        ),
        msg matches Message::Cancel(req) ==> m.incoming(msg) == Incoming::Event(
            PeerToSession::RequestCancelled { slot: m.slot, req },
        ),
        (msg is Unchoke || msg is Interested || msg is NotInterested || msg is Have
            || msg is Bitfield || msg is HaveAll || msg is HaveNone || msg is Request
            || msg is Cancel || msg is Extended) ==> m.on_message(msg) == m,
{
}

/// A block reaches the session with its place and bytes and counts what it is
/// long, and the request that it answers is no longer under way. A refusal reaches
/// the session, and its request is no longer under way. A choke ends every
/// request, unless both sides speak the Fast extension, which refuses them one by
/// one.
pub proof fn law_answers_settle_requests(m: ConnModel, msg: Message)
    requires
        m.wf(),
    ensures
        msg matches Message::Piece { piece, offset, data } ==> {
            let length = if blob(data).len() <= u32::MAX {
                blob(data).len() as u32
            } else {
                u32::MAX
            };
            &&& m.incoming(msg) == (Incoming::Block {
                event: PeerToSession::BlockReceived { slot: m.slot, piece, offset, data },
                cost: length,
            })
            &&& settled_alone(m, m.on_message(msg), (BlockRequest { piece, offset, length }))
        },
        msg matches Message::RejectRequest(req) ==> {
            &&& m.incoming(msg) == Incoming::Event(PeerToSession::Rejected { slot: m.slot, req })
            &&& settled_alone(m, m.on_message(msg), req)
        },
        msg is Choke ==> {
            &&& m.fast_ext ==> m.on_message(msg) == m
            &&& !m.fast_ext ==> m.on_message(msg).in_flight.len() == 0
            &&& m.on_message(msg) == (ConnModel { in_flight: m.on_message(msg).in_flight, ..m })
        },
{
    match msg {
        Message::Piece { piece, offset, data } => {
            let length = if blob(data).len() <= u32::MAX {
                blob(data).len() as u32
            } else {
                u32::MAX
            };
            lemma_settled_alone(m, BlockRequest { piece, offset, length });
        },
        Message::RejectRequest(req) => {
            lemma_settled_alone(m, req);
        },
        _ => {},
    }
}

/// An extension message reaches the session under the extension that its number
/// stands for here: one for metadata, two for peer exchange, zero for a handshake.
/// One under any other number, one too long, or any before extensions were
/// negotiated is passed over.
pub proof fn law_extension_words_are_told_apart(m: ConnModel, id: u8, payload: bytes::Bytes)
    ensures
        ({
            let got = m.incoming(Message::Extended { id, payload });
            let heard = m.extensions is Some && blob(payload).len() <= 1_048_576;
            &&& !heard ==> got is Nothing
            &&& (heard && id == 0) ==> got == (Incoming::LateHandshake { payload })
            &&& (heard && id == 1) ==> got == (Incoming::Extension {
                kind: ExtensionKind::Metadata,
                payload,
            })
            &&& (heard && id == 2) ==> got == (Incoming::Extension {
                kind: ExtensionKind::Pex,
                payload,
            })
            &&& (heard && id > 2) ==> got is Nothing
        }),
{
}

} // verus!
