//! Peer ids in Azureus style: `-CCVVVV-` and twelve more bytes, which are random
//! printable ASCII unless they are given.
use crate::entropy::{random_bytes, EntropyError};
use vstd::prelude::*;

verus! {

/// Length of a peer id.
pub const PEER_ID_LEN: usize = 20;

/// Length of what follows the prefix.
pub const SUFFIX_LEN: usize = 12;

/// The two-letter client code of this library, `Mg`.
pub const MAGPIE_CLIENT_CODE: [u8; 2] = [77, 103];

/// The printable character that stands for a random byte: one of 64, from `0` to
/// `o`, each for as many bytes as any other.
pub open spec fn printable_of(b: u8) -> u8 {
    (48 + b % 64) as u8
}

/// The printable characters that stand for random bytes.
pub open spec fn printable_suffix(random: Seq<u8>) -> Seq<u8> {
    Seq::new(random.len(), |i: int| printable_of(random[i]))
}

/// Every byte is a visible ASCII character.
pub open spec fn printable(s: Seq<u8>) -> bool {
    forall|i: int| 0 <= i < s.len() ==> 33 <= #[trigger] s[i] <= 126
}

/// The printable character that stands for a random byte.
fn printable_byte(b: u8) -> (r: u8)
    ensures
        r == printable_of(b),
{
    48 + b % 64
}

/// Produces peer ids for one client code and version.
#[derive(Debug, Clone, Copy)]
pub struct PeerIdBuilder {
    client_code: [u8; 2],
    version: [u8; 4],
}

impl PeerIdBuilder {
    /// The client code.
    pub closed spec fn code(self) -> Seq<u8> {
        self.client_code@
    }

    /// The version tag.
    pub closed spec fn tag(self) -> Seq<u8> {
        self.version@
    }

    /// `-`, client code, version tag, `-`.
    pub open spec fn prefix_of(self) -> Seq<u8> {
        seq![45u8] + self.code() + self.tag() + seq![45u8]
    }

    /// A builder for the given code and version tag.
    pub fn new(client_code: [u8; 2], version: [u8; 4]) -> (r: PeerIdBuilder)
        ensures
            r.code() == client_code@,
            r.tag() == version@,
    {
        PeerIdBuilder { client_code, version }
    }

    /// A builder for this library's own client code.
    pub fn magpie(version: [u8; 4]) -> (r: PeerIdBuilder)
        ensures
            r.code() == seq![77u8, 103u8],
            r.tag() == version@,
    {
        let r = PeerIdBuilder::new(MAGPIE_CLIENT_CODE, version);
        assert(r.code() =~= seq![77u8, 103u8]);
        r
    }

    /// The eight bytes that every id of this builder starts with.
    pub fn prefix(&self) -> (r: [u8; 8])
        ensures
            r@ == self.prefix_of(),
    {
        let r: [u8; 8] = [
            45,
            self.client_code[0],
            self.client_code[1],
            self.version[0],
            self.version[1],
            self.version[2],
            self.version[3],
            45,
        ];
        assert(r@ =~= self.prefix_of());
        r
    }

    /// An id with random printable characters behind the prefix.
    pub fn build(&self) -> (r: Result<[u8; 20], EntropyError>)
        ensures
            r is Ok ==> r->Ok_0@.take(8) == self.prefix_of(),
            r is Ok ==> printable(r->Ok_0@.skip(8)),
    {
        let r = self.build_from_draw(random_bytes(SUFFIX_LEN));
        if let Ok(id) = &r {
            assert(id@.take(8) =~= self.prefix_of());
        }
        r
    }

    /// What a draw of random bytes gives: an id with the characters that stand
    /// for them behind the prefix, or the failure of the draw.
    pub fn build_from_draw(&self, drawn: Result<Vec<u8>, EntropyError>) -> (r: Result<
        [u8; 20],
        EntropyError,
    >)
        requires
            drawn is Ok ==> drawn->Ok_0@.len() == SUFFIX_LEN,
        ensures
            match (drawn, r) {
                (Ok(random), Ok(id)) => id@ == self.prefix_of() + printable_suffix(random@),
                (Err(e), Err(got)) => got == e,
                _ => false,
            },
    {
        match drawn {
            Ok(random) => {
                let suffix: [u8; 12] = [
                    printable_byte(random[0]),
                    printable_byte(random[1]),
                    printable_byte(random[2]),
                    printable_byte(random[3]),
                    printable_byte(random[4]),
                    printable_byte(random[5]),
                    printable_byte(random[6]),
                    printable_byte(random[7]),
                    printable_byte(random[8]),
                    printable_byte(random[9]),
                    printable_byte(random[10]),
                    printable_byte(random[11]),
                ];
                assert(suffix@ =~= printable_suffix(random@));
                Ok(self.build_with_suffix(suffix))
            },
            Err(e) => Err(e),
        }
    }

    /// An id with the given bytes behind the prefix.
    pub fn build_with_suffix(&self, suffix: [u8; 12]) -> (r: [u8; 20])
        ensures
            r@ == self.prefix_of() + suffix@,
    {
        let p = self.prefix();
        let r: [u8; 20] = [
            p[0],
            p[1],
            p[2],
            p[3],
            p[4],
            p[5],
            p[6],
            p[7],
            suffix[0],
            suffix[1],
            suffix[2],
            suffix[3],
            suffix[4],
            suffix[5],
            suffix[6],
            suffix[7],
            suffix[8],
            suffix[9],
            suffix[10],
            suffix[11],
        ];
        assert(r@ =~= self.prefix_of() + suffix@);
        r
    }
}

/// The id of a builder says whose it is: a dash, the two letters of the client, the
/// four of its version, another dash, and then what was given.
pub proof fn law_id_names_its_client(builder: PeerIdBuilder, suffix: Seq<u8>)
    requires
        suffix.len() == 12,
    ensures
        ({
            let id = builder.prefix_of() + suffix;
            &&& builder.code().len() == 2 && builder.tag().len() == 4
            &&& id.len() == 20
            &&& id[0] == 45 && id[7] == 45
            &&& forall|i: int| 0 <= i < 2 ==> #[trigger] id[1 + i] == builder.code()[i]
            &&& forall|i: int| 0 <= i < 4 ==> #[trigger] id[3 + i] == builder.tag()[i]
            &&& forall|i: int| 0 <= i < 12 ==> #[trigger] id[8 + i] == suffix[i]
        }),
{
}

/// Each random byte has its own character behind the prefix, a visible one that
/// needs no escape. Bytes share one if and only if they agree in their six low bits.
pub proof fn law_random_bytes_are_shown(random: Seq<u8>, i: int, j: int)
    requires
        0 <= i < random.len(),
        0 <= j < random.len(),
    ensures
        printable_suffix(random).len() == random.len(),
        48 <= printable_suffix(random)[i] <= 111,
        printable_suffix(random)[i] == printable_suffix(random)[j] <==> random[i] % 64 == random[j]
            % 64,
{
}

} // verus!
