//! Local service discovery: the announcement that peers multicast on the local
//! network, and what follows from one.
//!
//! Times are nanoseconds.
use crate::bencode::fields::codes;
use crate::decimal::{
    dec_digits, dec_value, is_digit, lemma_dec_digits_canonical, lemma_value_of_digits,
    parse_decimal,
};
use crate::entropy::{random_bytes, EntropyError};
use crate::idset::{among, hashes_distinct, hashes_view, without, IdSet};
use crate::lines::{
    find_char, first_of, is_space, lemma_first_of, lemma_lines_of_line, lemma_normalised_line,
    lemma_settled_line, lemma_trimmed_blank, lemma_trimmed_same, lines_of, lower_is, lower_text,
    normalise, normalised, settled, starts_with, take_line, to_chars, to_text, trim, trimmed,
    trimmed_end, trimmed_start,
};
use crate::net::{PeerAddr, PeerIp};
use crate::text::{hex_char, hex_encode, hex_text, number_text, push_hex, push_number, text};
use vstd::prelude::*;
use vstd::slice::{slice_subrange, slice_to_vec};
use vstd::utf8::{
    decode_utf8, encode_utf8, encode_utf8_decode_utf8, encode_utf8_valid_utf8, valid_utf8,
};

verus! {

/// The multicast group, `239.192.152.143`.
pub const LSD_MULTICAST_ADDR: u32 = 0xefc0_988f;

/// The multicast port.
pub const LSD_PORT: u16 = 6771;

/// Usual time between announcements: five minutes.
pub const DEFAULT_ANNOUNCE_INTERVAL: u64 = 300_000_000_000;

/// Least time between announcements: one minute.
pub const MIN_ANNOUNCE_INTERVAL: u64 = 60_000_000_000;

/// Longest message that is received.
pub const MAX_MSG_SIZE: usize = 4096;

/// Most hashes in one message.
pub const MAX_INFOHASHES_PER_MESSAGE: usize = 100;

/// Why a message is not an announcement.
#[derive(Debug)]
pub enum LsdError {
    /// The message has another form.
    InvalidFormat(String),
    /// There is no port.
    MissingPort,
    /// There is no hash.
    MissingInfoHash,
    /// A hash is not forty lower-case hexadecimal digits.
    InvalidInfoHash(String),
    /// The port is no number, or too large.
    InvalidPort(String),
}

/// Why a message is not an announcement, by value.
pub enum LsdFault {
    /// The message has another form.
    InvalidFormat(Seq<char>),
    /// There is no port.
    MissingPort,
    /// There is no hash.
    MissingInfoHash,
    /// A hash is not forty lower-case hexadecimal digits.
    InvalidInfoHash(Seq<char>),
    /// The port is no number, or too large.
    InvalidPort(Seq<char>),
}

impl View for LsdError {
    type V = LsdFault;

    open spec fn view(&self) -> LsdFault {
        match self {
            LsdError::InvalidFormat(s) => LsdFault::InvalidFormat(s@),
            LsdError::MissingPort => LsdFault::MissingPort,
            LsdError::MissingInfoHash => LsdFault::MissingInfoHash,
            LsdError::InvalidInfoHash(s) => LsdFault::InvalidInfoHash(s@),
            LsdError::InvalidPort(s) => LsdFault::InvalidPort(s@),
        }
    }
}

/// An announcement.
#[derive(Debug, PartialEq, Eq)]
pub struct LsdAnnounce {
    /// The port that the peer listens on.
    pub port: u16,
    /// The torrents that the peer wants.
    pub info_hashes: Vec<[u8; 20]>,
    /// By which a peer knows its own announcements.
    pub cookie: Option<String>,
}

/// An announcement, by value.
#[verifier::ext_equal]
pub struct AnnounceModel {
    /// The port that the peer listens on.
    pub port: u16,
    /// The torrents that the peer wants.
    pub info_hashes: Seq<Seq<u8>>,
    /// By which a peer knows its own announcements.
    pub cookie: Option<Seq<char>>,
}

/// A string by value, where there is one.
pub open spec fn text_view(s: Option<String>) -> Option<Seq<char>> {
    match s {
        Some(s) => Some(s@),
        None => None,
    }
}

impl View for LsdAnnounce {
    type V = AnnounceModel;

    open spec fn view(&self) -> AnnounceModel {
        AnnounceModel {
            port: self.port,
            info_hashes: hashes_view(self.info_hashes@),
            cookie: text_view(self.cookie),
        }
    }
}

/// What a message has said so far.
#[verifier::ext_equal]
pub struct Headers {
    /// The port.
    pub port: Option<u16>,
    /// The hashes.
    pub info_hashes: Seq<Seq<u8>>,
    /// The cookie.
    pub cookie: Option<Seq<char>>,
}

/// The value of a lower-case hexadecimal digit.
pub open spec fn hex_value(c: char) -> Option<u8> {
    if '0' <= c <= '9' {
        Some(((c as u8) - 48) as u8)
    } else if 'a' <= c <= 'f' {
        Some(((c as u8) - 87) as u8)
    } else {
        None
    }
}

/// Every character is a lower-case hexadecimal digit.
pub open spec fn all_hex(s: Seq<char>) -> bool {
    forall|i: int| 0 <= i < s.len() ==> hex_value(#[trigger] s[i]) is Some
}

/// Half as many bytes as there are hexadecimal digits.
pub open spec fn unhex(s: Seq<char>) -> Seq<u8> {
    Seq::new(
        s.len() / 2,
        |i: int| (16 * hex_value(s[2 * i])->0 + hex_value(s[2 * i + 1])->0) as u8,
    )
}

/// The hash that forty hexadecimal digits stand for.
pub open spec fn hash_of(value: Seq<char>) -> Option<Seq<u8>> {
    let s = trimmed(value);
    if s.len() == 40 && all_hex(s) {
        Some(unhex(s))
    } else {
        None
    }
}

/// Every character is a decimal digit.
pub open spec fn digits_only(s: Seq<char>) -> bool {
    forall|i: int| 0 <= i < s.len() ==> '0' <= #[trigger] s[i] <= '9'
}

/// The text without a plus in front.
pub open spec fn without_plus(s: Seq<char>) -> Seq<char> {
    if s.len() > 0 && s[0] == '+' {
        s.skip(1)
    } else {
        s
    }
}

/// The port that decimal digits stand for, with a plus in front or without.
pub open spec fn port_of(value: Seq<char>) -> Option<u16> {
    let d = without_plus(value);
    if d.len() > 0 && digits_only(d) && dec_value(codes(d)) <= 65535 {
        Some(dec_value(codes(d)) as u16)
    } else {
        None
    }
}

impl Headers {
    /// Nothing was said yet.
    pub open spec fn none() -> Headers {
        Headers { port: None, info_hashes: Seq::empty(), cookie: None }
    }

    /// What was said after one more header.
    pub open spec fn with_field(self, key: Seq<char>, value: Seq<char>) -> Result<
        Headers,
        LsdFault,
    > {
        if key == "port"@ {
            match port_of(value) {
                Some(port) => Ok(Headers { port: Some(port), ..self }),
                None => Err(LsdFault::InvalidPort(value)),
            }
        } else if key == "infohash"@ {
            if self.info_hashes.len() >= MAX_INFOHASHES_PER_MESSAGE {
                Err(LsdFault::InvalidFormat("too many info hashes"@))
            } else {
                match hash_of(value) {
                    Some(hash) => Ok(Headers { info_hashes: self.info_hashes.push(hash), ..self }),
                    None => Err(LsdFault::InvalidInfoHash(value)),
                }
            }
        } else if key == "cookie"@ {
            Ok(Headers { cookie: Some(value), ..self })
        } else {
            Ok(self)
        }
    }

    /// What was said after one more line. A line without a colon says nothing.
    pub open spec fn with_line(self, line: Seq<char>) -> Result<Headers, LsdFault> {
        let colon = first_of(line, ':') as int;
        if colon < line.len() {
            self.with_field(
                lower_text(trimmed(line.take(colon))),
                trimmed(line.skip(colon + 1)),
            )
        } else {
            Ok(self)
        }
    }

    /// What was said after the lines up to the first empty one.
    pub open spec fn with_lines(self, lines: Seq<Seq<char>>) -> Result<Headers, LsdFault>
        decreases lines.len(),
    {
        if lines.len() == 0 || trimmed(lines[0]).len() == 0 {
            Ok(self)
        } else {
            match self.with_line(trimmed(lines[0])) {
                Ok(next) => next.with_lines(lines.skip(1)),
                Err(fault) => Err(fault),
            }
        }
    }

    /// The announcement, if nothing is missing.
    pub open spec fn complete(self) -> Result<AnnounceModel, LsdFault> {
        match self.port {
            None => Err(LsdFault::MissingPort),
            Some(port) => if self.info_hashes.len() == 0 {
                Err(LsdFault::MissingInfoHash)
            } else {
                Ok(AnnounceModel { port, info_hashes: self.info_hashes, cookie: self.cookie })
            },
        }
    }
}

/// What is said of bytes that are not UTF-8.
pub uninterp spec fn utf8_fault_text(bytes: Seq<u8>) -> Seq<char>;

/// `std::str::from_utf8` refuses bytes that are not UTF-8 with an error whose
/// text depends on the bytes alone.
#[verifier::external_body]
fn utf8_fault(bytes: &[u8]) -> (r: String)
    requires
        !valid_utf8(bytes@),
    ensures
        r@ == utf8_fault_text(bytes@),
{
    match std::str::from_utf8(bytes) {
        Ok(_) => String::new(),
        Err(e) => format!("{}", e),
    }
}

/// The text begins with `BT-SEARCH`.
pub open spec fn is_request(line: Seq<char>) -> bool {
    let want = "BT-SEARCH"@;
    want.len() <= line.len() && line.take(want.len() as int) == want
}

/// The announcement in lines of text.
pub open spec fn announce_in(lines: Seq<Seq<char>>) -> Result<AnnounceModel, LsdFault> {
    if lines.len() == 0 {
        Err(LsdFault::InvalidFormat("empty message"@))
    } else if !is_request(lines[0]) {
        Err(LsdFault::InvalidFormat("unexpected request line: "@ + lines[0]))
    } else {
        match Headers::none().with_lines(lines.skip(1)) {
            Ok(headers) => headers.complete(),
            Err(fault) => Err(fault),
        }
    }
}

/// The announcement in a message, or why there is none.
pub open spec fn read_announce(bytes: Seq<u8>) -> Result<AnnounceModel, LsdFault> {
    if valid_utf8(bytes) {
        announce_in(lines_of(normalised(decode_utf8(bytes))))
    } else {
        Err(LsdFault::InvalidFormat("not utf-8: "@ + utf8_fault_text(bytes)))
    }
}

/// A header line for each hash.
pub open spec fn hash_lines(hashes: Seq<Seq<u8>>) -> Seq<char>
    decreases hashes.len(),
{
    if hashes.len() == 0 {
        Seq::empty()
    } else {
        "Infohash: "@ + hex_text(hashes[0]) + "\r\n"@ + hash_lines(hashes.skip(1))
    }
}

/// A header line for the cookie.
pub open spec fn cookie_line(cookie: Option<Seq<char>>) -> Seq<char> {
    match cookie {
        Some(c) => "cookie: "@ + c + "\r\n"@,
        None => Seq::empty(),
    }
}

/// The text of an announcement.
pub open spec fn announce_text(a: AnnounceModel) -> Seq<char> {
    "BT-SEARCH * HTTP/1.1\r\n"@ + "Host: 239.192.152.143:6771\r\n"@ + "Port: "@ + number_text(
        a.port as nat,
    ) + "\r\n"@ + hash_lines(a.info_hashes) + cookie_line(a.cookie) + "\r\n"@
}

/// The result is what was said.
pub open spec fn matches_announce(
    r: Result<LsdAnnounce, LsdError>,
    want: Result<AnnounceModel, LsdFault>,
) -> bool {
    match (r, want) {
        (Ok(a), Ok(b)) => a@ == b,
        (Err(e), Err(fault)) => e@ == fault,
        _ => false,
    }
}

/// The value of a lower-case hexadecimal digit.
fn hex_nibble(c: char) -> (r: Option<u8>)
    ensures
        r == hex_value(c),
{
    if '0' <= c && c <= '9' {
        Some(c as u8 - 48)
    } else if 'a' <= c && c <= 'f' {
        Some(c as u8 - 87)
    } else {
        None
    }
}

/// The hash that forty hexadecimal digits stand for.
fn hex_decode(value: &[char]) -> (r: Option<[u8; 20]>)
    ensures
        match (r, hash_of(value@)) {
            (Some(a), Some(b)) => a@ == b,
            (None, None) => true,
            _ => false,
        },
{
    let s = trim(value);
    if s.len() != 40 {
        return None;
    }
    let mut out: [u8; 20] = [0u8; 20];
    let mut i: usize = 0;
    while i < 20
        invariant
            i <= 20,
            s@.len() == 40,
            s@ == trimmed(value@),
            forall|j: int| 0 <= j < 2 * i ==> hex_value(#[trigger] s@[j]) is Some,
            forall|j: int| 0 <= j < i ==> (#[trigger] out@[j]) == unhex(s@)[j],
        decreases 20 - i,
    {
        let ghost k = 2 * i as int;
        let hi = match hex_nibble(s[2 * i]) {
            Some(n) => n,
            None => {
                assert(hex_value(s@[k]) is None);
                return None;
            },
        };
        let lo = match hex_nibble(s[2 * i + 1]) {
            Some(n) => n,
            None => {
                assert(hex_value(s@[k + 1]) is None);
                return None;
            },
        };
        out[i] = 16 * hi + lo;
        i = i + 1;
    }
    assert(all_hex(s@));
    assert(out@ =~= unhex(s@));
    Some(out)
}

/// The port that decimal digits stand for.
fn parse_port(value: &[char]) -> (r: Option<u16>)
    ensures
        r == port_of(value@),
{
    let from: usize = if value.len() > 0 && value[0] == '+' {
        1
    } else {
        0
    };
    let ghost d = without_plus(value@);
    assert(d =~= value@.skip(from as int));
    if from == value.len() {
        return None;
    }
    let mut digits: Vec<u8> = Vec::new();
    let mut i: usize = from;
    while i < value.len()
        invariant
            from <= i <= value@.len(),
            from < value@.len(),
            d == value@.skip(from as int),
            d == without_plus(value@),
            digits@.len() == i - from,
            forall|j: int| 0 <= j < i - from ==> '0' <= #[trigger] d[j] <= '9',
            forall|j: int| 0 <= j < i - from ==> (#[trigger] digits@[j]) == d[j] as u8,
        decreases value@.len() - i,
    {
        let c: char = value[i];
        assert(c == d[i - from]);
        if !('0' <= c && c <= '9') {
            assert(!digits_only(d));
            return None;
        }
        digits.push(c as u8);
        i = i + 1;
    }
    proof {
        assert(digits@ =~= codes(d));
        assert(digits_only(d));
        assert forall|j: int| 0 <= j < digits@.len() implies is_digit(#[trigger] digits@[j]) by {
            assert('0' <= d[j] <= '9');
        }
    }
    match parse_decimal(digits.as_slice(), 65535) {
        Some(n) => Some(n as u16),
        None => None,
    }
}

/// What a message has said so far.
struct Said {
    port: Option<u16>,
    info_hashes: Vec<[u8; 20]>,
    cookie: Option<String>,
}

impl Said {
    spec fn view(&self) -> Headers {
        Headers {
            port: self.port,
            info_hashes: hashes_view(self.info_hashes@),
            cookie: text_view(self.cookie),
        }
    }

    /// Takes note of a line.
    fn line(&mut self, line: &[char]) -> (r: Result<(), LsdError>)
        ensures
            match old(self)@.with_line(line@) {
                Ok(next) => r is Ok && final(self)@ == next,
                Err(fault) => r is Err && r->Err_0@ == fault,
            },
    {
        let colon: usize = find_char(line, ':');
        if colon < line.len() {
            let key = trim(slice_subrange(line, 0, colon));
            let value = trim(slice_subrange(line, colon + 1, line.len()));
            proof {
                assert(line@.subrange(0, colon as int) =~= line@.take(colon as int));
                assert(line@.subrange(colon + 1, line@.len() as int) =~= line@.skip(colon + 1));
            }
            self.field(key, value)
        } else {
            Ok(())
        }
    }

    /// Takes note of a header.
    fn field(&mut self, key: &[char], value: &[char]) -> (r: Result<(), LsdError>)
        ensures
            match old(self)@.with_field(lower_text(key@), value@) {
                Ok(next) => r is Ok && final(self)@ == next,
                Err(fault) => r is Err && r->Err_0@ == fault,
            },
    {
        if lower_is(key, "port") {
            match parse_port(value) {
                Some(port) => {
                    self.port = Some(port);
                },
                None => {
                    return Err(LsdError::InvalidPort(to_text(value)));
                },
            }
        } else if lower_is(key, "infohash") {
            if self.info_hashes.len() >= MAX_INFOHASHES_PER_MESSAGE {
                return Err(LsdError::InvalidFormat(text("too many info hashes")));
            }
            match hex_decode(value) {
                Some(hash) => {
                    let ghost before = self@;
                    self.info_hashes.push(hash);
                    assert(self@.info_hashes =~= before.info_hashes.push(hash@));
                },
                None => {
                    return Err(LsdError::InvalidInfoHash(to_text(value)));
                },
            }
        } else if lower_is(key, "cookie") {
            self.cookie = Some(to_text(value));
        }
        Ok(())
    }
}

impl LsdAnnounce {
    /// The message of an announcement.
    pub fn encode(&self) -> (r: Vec<u8>)
        ensures
            r@ == encode_utf8(announce_text(self@)),
    {
        let mut buf = text("BT-SEARCH * HTTP/1.1\r\n");
        buf.push_str("Host: 239.192.152.143:6771\r\n");
        buf.push_str("Port: ");
        push_number(&mut buf, self.port as u64);
        buf.push_str("\r\n");
        let ghost head = buf@;
        let ghost all = hashes_view(self.info_hashes@);
        let mut i: usize = 0;
        assert(all.skip(0) =~= all);
        while i < self.info_hashes.len()
            invariant
                i <= self.info_hashes@.len(),
                all == hashes_view(self.info_hashes@),
                buf@ + hash_lines(all.skip(i as int)) == head + hash_lines(all),
            decreases self.info_hashes@.len() - i,
        {
            let ghost before = buf@;
            buf.push_str("Infohash: ");
            push_hex(&mut buf, self.info_hashes[i].as_slice());
            buf.push_str("\r\n");
            proof {
                let rest = all.skip(i as int);
                assert(rest[0] == self.info_hashes@[i as int]@);
                assert(rest.skip(1) =~= all.skip(i + 1));
                assert(buf@ + hash_lines(all.skip(i + 1)) =~= before + hash_lines(rest));
            }
            i = i + 1;
        }
        assert(hash_lines(all.skip(i as int)) =~= Seq::<char>::empty());
        assert(buf@ =~= head + hash_lines(all));
        if let Some(cookie) = &self.cookie {
            buf.push_str("cookie: ");
            buf.push_str(cookie.as_str());
            buf.push_str("\r\n");
        }
        buf.push_str("\r\n");
        assert(buf@ =~= announce_text(self@));
        slice_to_vec(buf.as_str().as_bytes())
    }

    /// The announcement in a message. Lines may end with or without a carriage
    /// return, and unknown headers are passed over.
    pub fn decode(buf: &[u8]) -> (r: Result<LsdAnnounce, LsdError>)
        ensures
            matches_announce(r, read_announce(buf@)),
    {
        let owned: Vec<u8> = slice_to_vec(buf);
        assert(owned@ =~= buf@);
        let chars = match String::from_utf8(owned) {
            Ok(s) => to_chars(s.as_str()),
            Err(_) => {
                let mut why = text("not utf-8: ");
                why.push_str(utf8_fault(buf).as_str());
                return Err(LsdError::InvalidFormat(why));
            },
        };
        let normal = normalise(chars.as_slice());
        LsdAnnounce::from_lines(normal.as_slice())
    }

    /// The announcement in the lines of a text.
    fn from_lines(s: &[char]) -> (r: Result<LsdAnnounce, LsdError>)
        ensures
            matches_announce(r, announce_in(lines_of(s@))),
    {
        if s.len() == 0 {
            return Err(LsdError::InvalidFormat(text("empty message")));
        }
        let (request, after) = take_line(s);
        let ghost all = lines_of(s@);
        assert(all[0] == request@);
        assert(all.skip(1) =~= lines_of(after@));
        if !starts_with(request, "BT-SEARCH") {
            let mut why = text("unexpected request line: ");
            why.push_str(to_text(request).as_str());
            return Err(LsdError::InvalidFormat(why));
        }
        let mut said = Said { port: None, info_hashes: Vec::new(), cookie: None };
        assert(said@ =~= Headers::none());
        let mut rest = after;
        let mut open: bool = true;
        while open && rest.len() > 0
            invariant
                all == lines_of(s@),
                all.len() > 0,
                is_request(all[0]),
                open ==> said@.with_lines(lines_of(rest@)) == Headers::none().with_lines(
                    all.skip(1),
                ),
                !open ==> Headers::none().with_lines(all.skip(1)) == Ok::<Headers, LsdFault>(
                    said@,
                ),
            decreases rest@.len() + (if open {
                1int
            } else {
                0
            }),
        {
            let (raw, tail) = take_line(rest);
            let ghost lines = lines_of(rest@);
            assert(lines[0] == raw@);
            assert(lines.skip(1) =~= lines_of(tail@));
            let line = trim(raw);
            if line.len() == 0 {
                open = false;
            } else {
                match said.line(line) {
                    Ok(_) => {
                        rest = tail;
                    },
                    Err(e) => {
                        return Err(e);
                    },
                }
            }
        }
        assert(open ==> lines_of(rest@).len() == 0);
        match said.port {
            None => Err(LsdError::MissingPort),
            Some(port) => {
                if said.info_hashes.len() == 0 {
                    return Err(LsdError::MissingInfoHash);
                }
                Ok(LsdAnnounce { port, info_hashes: said.info_hashes, cookie: said.cookie })
            },
        }
    }
}

/// Reading a line of a message takes note of it and goes on behind it.
proof fn lemma_next_line(h: Headers, line: Seq<char>, rest: Seq<char>)
    requires
        !line.contains('\n'),
        line.len() > 0 ==> line.last() != '\r',
        trimmed(line).len() > 0,
    ensures
        h.with_lines(lines_of(normalised(line + seq!['\r', '\n'] + rest))) == (
        match h.with_line(trimmed(line)) {
            Ok(next) => next.with_lines(lines_of(normalised(rest))),
            Err(fault) => Err(fault),
        }),
{
    lemma_normalised_line(line, rest);
    lemma_lines_of_line(line, normalised(rest));
    let lines = seq![line] + lines_of(normalised(rest));
    assert(lines[0] == line);
    assert(lines.skip(1) =~= lines_of(normalised(rest)));
}

/// Neither a blank nor a control character.
spec fn visible(s: Seq<char>) -> bool {
    forall|i: int| 0 <= i < s.len() ==> '!' <= #[trigger] s[i] <= '~'
}

proof fn lemma_visible_trimmed(s: Seq<char>)
    requires
        visible(s),
    ensures
        trimmed(s) == s,
        !s.contains('\n'),
        s.len() > 0 ==> s.last() != '\r',
{
    if s.len() > 0 {
        assert('!' <= s[0] <= '~');
        assert('!' <= s.last() <= '~');
    }
    lemma_trimmed_same(s);
}

/// A line made of a key, a colon, a blank and a value.
proof fn lemma_field_line(h: Headers, line: Seq<char>, key: Seq<char>, value: Seq<char>)
    requires
        line == key + seq![':', ' '] + value,
        visible(key),
        key.len() > 0,
        !key.contains(':'),
        !value.contains('\n'),
        value.len() > 0 ==> !is_space(value[0]) && !is_space(value.last()),
    ensures
        h.with_line(trimmed(line)) == h.with_field(lower_text(key), value),
        trimmed(line).len() > 0,
        !line.contains('\n'),
        line.last() != '\r',
{
    lemma_visible_trimmed(key);
    let colon = key.len() as int;
    assert('!' <= key[0] <= '~');
    assert(line[0] == key[0]);
    assert(trimmed_start(line) == line);
    let t = trimmed(line);
    if value.len() > 0 {
        assert(line.last() == value.last());
        assert(t == line);
        assert(value.contains(value.last()));
    } else {
        assert(line.drop_last() =~= key + seq![':']);
        assert(line.drop_last().last() == ':');
        assert(line.last() == ' ');
        assert(trimmed_end(line.drop_last()) == line.drop_last());
        assert(t =~= key + seq![':']);
    }
    assert forall|j: int| 0 <= j < line.len() implies (#[trigger] line[j]) != '\n' by {
        if j < key.len() {
            assert(line[j] == key[j]);
            assert('!' <= key[j] <= '~');
        } else if j >= key.len() + 2 {
            assert(line[j] == value[j - key.len() - 2]);
            assert(value.contains(value[j - key.len() - 2]));
        }
    }
    assert forall|j: int| 0 <= j < colon implies (#[trigger] t[j]) != ':' by {
        assert(t[j] == key[j]);
        assert(key.contains(key[j]));
    }
    lemma_first_of(t, ':', colon);
    assert(t.take(colon) =~= key);
    if value.len() > 0 {
        assert(t.skip(colon + 1) =~= seq![' '] + value);
        lemma_trimmed_blank(value);
    } else {
        assert(t.skip(colon + 1) =~= value);
    }
    lemma_trimmed_same(value);
}

proof fn lemma_hex_digit(n: u8)
    requires
        n < 16,
    ensures
        hex_value(hex_char(n)) == Some(n),
        '!' <= hex_char(n) <= '~',
{
}

/// Reading hexadecimal digits gives back the bytes that they were written for.
pub proof fn law_unhex_undoes_hex(b: Seq<u8>)
    ensures
        all_hex(hex_text(b)),
        unhex(hex_text(b)) == b,
{
    let s = hex_text(b);
    assert forall|i: int| 0 <= i < s.len() implies hex_value(#[trigger] s[i]) is Some by {
        lemma_hex_digit(b[i / 2] / 16);
        lemma_hex_digit(b[i / 2] % 16);
    }
    assert forall|i: int| 0 <= i < b.len() implies unhex(s)[i] == b[i] by {
        let even: int = 2 * i;
        let odd: int = 2 * i + 1;
        assert(even / 2 == i && odd / 2 == i && even % 2 == 0 && odd % 2 == 1);
        lemma_hex_digit(b[i] / 16);
        lemma_hex_digit(b[i] % 16);
        assert(s[even] == hex_char(b[i] / 16));
        assert(s[odd] == hex_char(b[i] % 16));
    }
    assert(unhex(s) =~= b);
}

proof fn lemma_hex_visible(b: Seq<u8>)
    ensures
        visible(hex_text(b)),
{
    let s = hex_text(b);
    assert forall|i: int| 0 <= i < s.len() implies '!' <= #[trigger] s[i] <= '~' by {
        lemma_hex_digit(b[i / 2] / 16);
        lemma_hex_digit(b[i / 2] % 16);
    }
}

/// A text that is visible has no blank at its ends.
proof fn lemma_visible_ends(s: Seq<char>)
    requires
        visible(s),
    ensures
        s.len() > 0 ==> !is_space(s[0]) && !is_space(s.last()),
        !s.contains('\n'),
{
    if s.len() > 0 {
        assert('!' <= s[0] <= '~');
        assert('!' <= s.last() <= '~');
    }
}

/// The header lines of hashes add them to what was said.
proof fn lemma_hash_lines(h: Headers, hashes: Seq<Seq<u8>>, rest: Seq<char>)
    requires
        h.info_hashes.len() + hashes.len() <= MAX_INFOHASHES_PER_MESSAGE,
        forall|i: int| 0 <= i < hashes.len() ==> (#[trigger] hashes[i]).len() == 20,
    ensures
        h.with_lines(lines_of(normalised(hash_lines(hashes) + rest))) == (Headers {
            info_hashes: h.info_hashes + hashes,
            ..h
        }).with_lines(lines_of(normalised(rest))),
    decreases hashes.len(),
{
    if hashes.len() == 0 {
        assert(hash_lines(hashes) + rest =~= rest);
        assert(h.info_hashes + hashes =~= h.info_hashes);
    } else {
        let hex = hex_text(hashes[0]);
        let tail = hashes.skip(1);
        let more = hash_lines(tail) + rest;
        let key = "Infohash"@;
        let line = "Infohash: "@ + hex;
        reveal_strlit("Infohash");
        reveal_strlit("Infohash: ");
        reveal_strlit("infohash");
        reveal_strlit("port");
        reveal_strlit("\r\n");
        assert(line =~= key + seq![':', ' '] + hex);
        assert(hash_lines(hashes) + rest =~= line + seq!['\r', '\n'] + more);
        assert(visible(key));
        lemma_hex_visible(hashes[0]);
        lemma_visible_ends(hex);
        lemma_field_line(h, line, key, hex);
        lemma_next_line(h, line, more);
        assert(lower_text(key) =~= "infohash"@);
        assert("infohash"@ != "port"@);
        law_unhex_undoes_hex(hashes[0]);
        lemma_visible_trimmed(hex);
        assert(hashes[0].len() == 20);
        assert(hash_of(hex) == Some(hashes[0]));
        let next = Headers { info_hashes: h.info_hashes.push(hashes[0]), ..h };
        assert(h.with_field(lower_text(key), hex) == Ok::<Headers, LsdFault>(next));
        assert forall|i: int| 0 <= i < tail.len() implies (#[trigger] tail[i]).len() == 20 by {
            assert(tail[i] == hashes[i + 1]);
        }
        lemma_hash_lines(next, tail, rest);
        assert(next.info_hashes + tail =~= h.info_hashes + hashes);
    }
}

/// The number of a port is read back.
proof fn lemma_port_text(port: u16)
    ensures
        visible(number_text(port as nat)),
        number_text(port as nat).len() > 0,
        port_of(number_text(port as nat)) == Some(port),
{
    let d = dec_digits(port as nat);
    let s = number_text(port as nat);
    lemma_dec_digits_canonical(port as nat);
    lemma_value_of_digits(port as nat);
    assert forall|i: int| 0 <= i < s.len() implies '0' <= #[trigger] s[i] <= '9' by {
        assert(is_digit(d[i]));
    }
    assert(codes(s) =~= d) by {
        assert forall|i: int| 0 <= i < s.len() implies codes(s)[i] == d[i] by {
            assert(is_digit(d[i]));
        }
    }
    assert('0' <= s[0] <= '9');
    assert(digits_only(s));
}

/// The lines behind the hashes add the cookie to what was said.
proof fn lemma_cookie_line(h: Headers, cookie: Option<Seq<char>>)
    requires
        h.cookie is None,
        cookie matches Some(c) ==> !c.contains('\n') && (c.len() > 0 ==> !is_space(c[0])
            && !is_space(c.last())),
    ensures
        h.with_lines(lines_of(normalised(cookie_line(cookie) + "\r\n"@))) == Ok::<
            Headers,
            LsdFault,
        >(Headers { cookie, ..h }),
{
    reveal_strlit("\r\n");
    let none = Seq::<char>::empty();
    let end = none + seq!['\r', '\n'] + none;
    assert("\r\n"@ =~= end);
    lemma_normalised_line(none, none);
    lemma_lines_of_line(none, normalised(none));
    let last = lines_of(normalised(end));
    assert(last[0] == none);
    assert(trimmed(none).len() == 0);
    assert(forall|x: Headers| (#[trigger] x.with_lines(last)) == Ok::<Headers, LsdFault>(x));
    match cookie {
        None => {
            assert(cookie_line(cookie) + "\r\n"@ =~= end);
        },
        Some(c) => {
            let key = "cookie"@;
            let line = "cookie: "@ + c;
            reveal_strlit("cookie");
            reveal_strlit("cookie: ");
            reveal_strlit("port");
            reveal_strlit("infohash");
            assert(line =~= key + seq![':', ' '] + c);
            assert(cookie_line(cookie) + "\r\n"@ =~= line + seq!['\r', '\n'] + end);
            assert(visible(key));
            lemma_field_line(h, line, key, c);
            lemma_next_line(h, line, end);
            assert(lower_text(key) =~= "cookie"@);
            assert("cookie"@ != "port"@);
            assert("cookie"@ != "infohash"@);
        },
    }
}

/// An announcement is read back as it was written: one hash at least and no more
/// than a message may hold, and a cookie, if any, without line feeds or white
/// space at its ends.
pub proof fn law_announce_roundtrip(a: AnnounceModel)
    requires
        0 < a.info_hashes.len() <= MAX_INFOHASHES_PER_MESSAGE,
        forall|i: int| 0 <= i < a.info_hashes.len() ==> (#[trigger] a.info_hashes[i]).len() == 20,
        a.cookie matches Some(c) ==> !c.contains('\n') && (c.len() > 0 ==> !is_space(c[0])
            && !is_space(c.last())),
    ensures
        read_announce(encode_utf8(announce_text(a))) == Ok::<AnnounceModel, LsdFault>(a),
{
    let whole = announce_text(a);
    encode_utf8_valid_utf8(whole);
    encode_utf8_decode_utf8(whole);
    let tail = cookie_line(a.cookie) + "\r\n"@;
    let hashes = hash_lines(a.info_hashes) + tail;
    let digits = number_text(a.port as nat);
    let port_line = "Port: "@ + digits;
    let host_line = "Host"@ + seq![':', ' '] + "239.192.152.143:6771"@;
    let request = "BT-SEARCH * HTTP/1.1"@;
    reveal_strlit("\r\n");
    reveal_strlit("BT-SEARCH * HTTP/1.1\r\n");
    reveal_strlit("BT-SEARCH * HTTP/1.1");
    reveal_strlit("BT-SEARCH");
    reveal_strlit("Host: 239.192.152.143:6771\r\n");
    reveal_strlit("Host");
    reveal_strlit("239.192.152.143:6771");
    reveal_strlit("Port: ");
    reveal_strlit("Port");
    reveal_strlit("port");
    reveal_strlit("infohash");
    reveal_strlit("cookie");
    let after_port = hashes;
    let after_host = port_line + seq!['\r', '\n'] + after_port;
    let after_request = host_line + seq!['\r', '\n'] + after_host;
    assert("BT-SEARCH * HTTP/1.1\r\n"@ =~= request + seq!['\r', '\n']);
    assert("Host: 239.192.152.143:6771\r\n"@ =~= host_line + seq!['\r', '\n']);
    assert(whole =~= request + seq!['\r', '\n'] + after_request);
    lemma_normalised_line(request, after_request);
    lemma_lines_of_line(request, normalised(after_request));
    let lines = lines_of(normalised(whole));
    assert(lines[0] == request);
    assert(lines.skip(1) =~= lines_of(normalised(after_request)));
    assert(request.take(9) =~= "BT-SEARCH"@);
    let h0 = Headers::none();
    assert(visible("Host"@));
    assert(visible("239.192.152.143:6771"@));
    lemma_visible_ends("239.192.152.143:6771"@);
    lemma_field_line(h0, host_line, "Host"@, "239.192.152.143:6771"@);
    lemma_next_line(h0, host_line, after_host);
    assert(lower_text("Host"@) =~= seq!['h', 'o', 's', 't']);
    assert("port"@[0] != 'h' && "infohash"@[0] != 'h' && "cookie"@[0] != 'h');
    assert(lower_text("Host"@)[0] == 'h');
    lemma_port_text(a.port);
    lemma_visible_ends(digits);
    assert(visible("Port"@));
    assert(port_line =~= "Port"@ + seq![':', ' '] + digits);
    lemma_field_line(h0, port_line, "Port"@, digits);
    lemma_next_line(h0, port_line, after_port);
    assert(lower_text("Port"@) =~= "port"@);
    let h1 = Headers { port: Some(a.port), ..h0 };
    lemma_hash_lines(h1, a.info_hashes, tail);
    let h2 = Headers { info_hashes: h1.info_hashes + a.info_hashes, ..h1 };
    assert(h2.info_hashes =~= a.info_hashes);
    lemma_cookie_line(h2, a.cookie);
    let h3 = Headers { cookie: a.cookie, ..h2 };
    assert(h3.complete() == Ok::<AnnounceModel, LsdFault>(a));
}

proof fn lemma_hash_lines_settled(hashes: Seq<Seq<u8>>, rest: Seq<char>)
    requires
        settled(rest),
    ensures
        settled(hash_lines(hashes) + rest),
    decreases hashes.len(),
{
    if hashes.len() == 0 {
        assert(hash_lines(hashes) + rest =~= rest);
    } else {
        let hex = hex_text(hashes[0]);
        let line = "Infohash: "@ + hex;
        let more = hash_lines(hashes.skip(1)) + rest;
        reveal_strlit("Infohash: ");
        reveal_strlit("\r\n");
        assert(hash_lines(hashes) + rest =~= line + seq!['\r', '\n'] + more);
        lemma_hex_visible(hashes[0]);
        lemma_visible_ends(hex);
        lemma_line_of(line, "Infohash: "@, hex);
        lemma_hash_lines_settled(hashes.skip(1), rest);
        lemma_settled_line(line, more);
    }
}

/// A text without line feeds behind another is a line, as long as it does not end
/// in white space.
proof fn lemma_line_of(line: Seq<char>, front: Seq<char>, value: Seq<char>)
    requires
        line == front + value,
        !front.contains('\n'),
        front.len() > 0 ==> front.last() != '\r',
        !value.contains('\n'),
        value.len() > 0 ==> !is_space(value.last()),
    ensures
        !line.contains('\n'),
        line.len() > 0 ==> line.last() != '\r',
{
    assert forall|i: int| 0 <= i < line.len() implies (#[trigger] line[i]) != '\n' by {
        if i < front.len() {
            assert(front.contains(front[i]));
        } else {
            assert(line[i] == value[i - front.len()]);
            assert(value.contains(value[i - front.len()]));
        }
    }
    if value.len() > 0 {
        assert(line.last() == value.last());
    } else {
        assert(line =~= front);
    }
}

/// An announcement whose lines end in bare line feeds, without the carriage
/// returns, is read as the announcement with them is.
pub proof fn law_bare_announce_roundtrip(a: AnnounceModel)
    requires
        0 < a.info_hashes.len() <= MAX_INFOHASHES_PER_MESSAGE,
        forall|i: int| 0 <= i < a.info_hashes.len() ==> (#[trigger] a.info_hashes[i]).len() == 20,
        a.cookie matches Some(c) ==> !c.contains('\n') && (c.len() > 0 ==> !is_space(c[0])
            && !is_space(c.last())),
    ensures
        read_announce(encode_utf8(normalised(announce_text(a)))) == Ok::<AnnounceModel, LsdFault>(
            a,
        ),
{
    let whole = announce_text(a);
    let bare = normalised(whole);
    law_announce_roundtrip(a);
    encode_utf8_decode_utf8(whole);
    encode_utf8_valid_utf8(whole);
    encode_utf8_decode_utf8(bare);
    encode_utf8_valid_utf8(bare);
    let none = Seq::<char>::empty();
    let digits = number_text(a.port as nat);
    let request = "BT-SEARCH * HTTP/1.1"@;
    let host_line = "Host: 239.192.152.143:6771"@;
    let port_line = "Port: "@ + digits;
    reveal_strlit("\r\n");
    reveal_strlit("BT-SEARCH * HTTP/1.1\r\n");
    reveal_strlit("BT-SEARCH * HTTP/1.1");
    reveal_strlit("Host: 239.192.152.143:6771\r\n");
    reveal_strlit("Host: 239.192.152.143:6771");
    reveal_strlit("Port: ");
    reveal_strlit("cookie: ");
    let end = none + seq!['\r', '\n'] + none;
    assert("\r\n"@ =~= end);
    lemma_settled_line(none, none);
    let tail = cookie_line(a.cookie) + "\r\n"@;
    match a.cookie {
        None => {
            assert(tail =~= end);
        },
        Some(c) => {
            let line = "cookie: "@ + c;
            assert(tail =~= line + seq!['\r', '\n'] + end);
            lemma_line_of(line, "cookie: "@, c);
            lemma_settled_line(line, end);
        },
    }
    let after_port = hash_lines(a.info_hashes) + tail;
    lemma_hash_lines_settled(a.info_hashes, tail);
    let after_host = port_line + seq!['\r', '\n'] + after_port;
    lemma_port_text(a.port);
    lemma_visible_ends(digits);
    lemma_line_of(port_line, "Port: "@, digits);
    lemma_settled_line(port_line, after_port);
    let after_request = host_line + seq!['\r', '\n'] + after_host;
    lemma_settled_line(host_line, after_host);
    lemma_settled_line(request, after_request);
    assert(whole =~= request + seq!['\r', '\n'] + after_request);
}

/// A peer that was found.
#[derive(Debug, Clone, Copy)]
pub struct LsdDiscovery {
    /// The torrent that the peer wants.
    pub info_hash: [u8; 20],
    /// Where the peer listens.
    pub addr: PeerAddr,
}

/// How discovery is set up.
#[derive(Debug, Clone, Copy)]
pub struct LsdConfig {
    /// Whether it is on.
    pub enabled: bool,
    /// Time between announcements, at least [`MIN_ANNOUNCE_INTERVAL`].
    pub announce_interval: u64,
    /// Where announcements go.
    pub multicast_addr: PeerAddr,
}

impl Default for LsdConfig {
    fn default() -> (r: Self)
        ensures
            r == (LsdConfig {
                enabled: true,
                announce_interval: DEFAULT_ANNOUNCE_INTERVAL,
                multicast_addr: PeerAddr { ip: PeerIp::V4(LSD_MULTICAST_ADDR), port: LSD_PORT },
            }),
    {
        LsdConfig {
            enabled: true,
            announce_interval: DEFAULT_ANNOUNCE_INTERVAL,
            multicast_addr: PeerAddr { ip: PeerIp::V4(LSD_MULTICAST_ADDR), port: LSD_PORT },
        }
    }
}

/// What a handle asks of the service.
#[derive(Debug, Clone, Copy)]
pub enum LsdCommand {
    /// Announce this torrent.
    Register {
        /// The torrent.
        info_hash: [u8; 20],
    },
    /// Announce this torrent no longer.
    Unregister {
        /// The torrent.
        info_hash: [u8; 20],
    },
}

/// What the service listens on.
#[derive(Debug, Clone, Copy, PartialEq, Eq, Structural)]
pub enum LsdTransport {
    /// Nothing: it is switched off.
    Disabled,
    /// Nothing: multicast over IPv6 is not supported.
    Unsupported,
    /// An IPv4 group and port.
    Multicast {
        /// The group.
        group: u32,
        /// The port.
        port: u16,
    },
}

/// Announces torrents and finds peers on the local network.
#[derive(Debug)]
pub struct LsdService {
    config: LsdConfig,
    listen_port: u16,
    cookie: String,
    registered: IdSet,
}

/// A random cookie of sixteen hexadecimal digits.
pub fn generate_cookie() -> (r: Result<String, EntropyError>)
    ensures
        r is Ok ==> r->Ok_0@.len() == 16 && all_hex(r->Ok_0@),
{
    let drawn = random_bytes(8);
    proof {
        if drawn is Ok {
            law_unhex_undoes_hex(drawn->Ok_0@);
        }
    }
    cookie_from_draw(drawn)
}

/// What a draw of random bytes gives: the cookie that spells them in hexadecimal
/// digits, or the failure of the draw.
pub fn cookie_from_draw(drawn: Result<Vec<u8>, EntropyError>) -> (r: Result<String, EntropyError>)
    ensures
        match (drawn, r) {
            (Ok(buf), Ok(cookie)) => cookie@ == hex_text(buf@),
            (Err(e), Err(got)) => got == e,
            _ => false,
        },
{
    match drawn {
        Ok(buf) => Ok(hex_encode(buf.as_slice())),
        Err(e) => Err(e),
    }
}

/// The peers that an announcement from `ip` tells of.
pub open spec fn discoveries(a: AnnounceModel, ip: PeerIp, found: Seq<LsdDiscovery>) -> bool {
    &&& found.len() == a.info_hashes.len()
    &&& forall|i: int|
        0 <= i < found.len() ==> (#[trigger] found[i]).info_hash@ == a.info_hashes[i]
            && found[i].addr == (PeerAddr { ip, port: a.port })
}

impl LsdService {
    /// How it is set up.
    pub closed spec fn settings(&self) -> LsdConfig {
        self.config
    }

    /// The port that peers are told.
    pub closed spec fn told_port(&self) -> u16 {
        self.listen_port
    }

    /// The cookie of its own announcements.
    pub closed spec fn own_cookie(&self) -> Seq<char> {
        self.cookie@
    }

    /// The torrents that it announces.
    pub closed spec fn hashes(&self) -> Seq<Seq<u8>> {
        self.registered@
    }

    /// No torrent is announced twice.
    pub open spec fn wf(&self) -> bool {
        hashes_distinct(self.hashes())
    }

    /// Everything but the torrents is as in `other`.
    pub open spec fn same_setup(&self, other: LsdService) -> bool {
        &&& self.settings() == other.settings()
        &&& self.told_port() == other.told_port()
        &&& self.own_cookie() == other.own_cookie()
    }

    /// A service that announces nothing yet.
    pub fn new(config: LsdConfig, listen_port: u16, cookie: String) -> (r: LsdService)
        ensures
            r.wf(),
            r.settings() == config,
            r.told_port() == listen_port,
            r.own_cookie() == cookie@,
            r.hashes() == Seq::<Seq<u8>>::empty(),
    {
        LsdService { config, listen_port, cookie, registered: IdSet::new() }
    }

    /// What to ask of the service to announce a torrent: nothing where the
    /// torrent is private.
    pub fn register(&self, info_hash: [u8; 20], private: bool) -> (r: Option<LsdCommand>)
        ensures
            r == (if private {
                None
            } else {
                Some(LsdCommand::Register { info_hash })
            }),
    {
        if private {
            None
        } else {
            Some(LsdCommand::Register { info_hash })
        }
    }

    /// What to ask of the service to announce a torrent no longer.
    pub fn unregister(&self, info_hash: [u8; 20]) -> (r: LsdCommand)
        ensures
            r == (LsdCommand::Unregister { info_hash }),
    {
        LsdCommand::Unregister { info_hash }
    }

    /// What the service listens on.
    pub fn transport(&self) -> (r: LsdTransport)
        ensures
            r == (if !self.settings().enabled {
                LsdTransport::Disabled
            } else {
                match self.settings().multicast_addr.ip {
                    PeerIp::V4(group) => LsdTransport::Multicast {
                        group,
                        port: self.settings().multicast_addr.port,
                    },
                    PeerIp::V6(_) => LsdTransport::Unsupported,
                }
            }),
    {
        if !self.config.enabled {
            return LsdTransport::Disabled;
        }
        match self.config.multicast_addr.ip {
            PeerIp::V4(group) => LsdTransport::Multicast {
                group,
                port: self.config.multicast_addr.port,
            },
            PeerIp::V6(_) => LsdTransport::Unsupported,
        }
    }

    /// Time between announcements.
    pub fn announce_interval(&self) -> (r: u64)
        ensures
            r == (if self.settings().announce_interval < MIN_ANNOUNCE_INTERVAL {
                MIN_ANNOUNCE_INTERVAL
            } else {
                self.settings().announce_interval
            }),
    {
        if self.config.announce_interval < MIN_ANNOUNCE_INTERVAL {
            MIN_ANNOUNCE_INTERVAL
        } else {
            self.config.announce_interval
        }
    }

    /// Does what a handle asked. Without a handle left the service ends.
    pub fn handle_command(&mut self, cmd: Option<LsdCommand>) -> (r: bool)
        requires
            old(self).wf(),
        ensures
            final(self).wf(),
            final(self).same_setup(*old(self)),
            r == (cmd is Some),
            final(self).hashes() == (match cmd {
                Some(LsdCommand::Register { info_hash }) => if among(
                    old(self).hashes(),
                    info_hash@,
                ) {
                    old(self).hashes()
                } else {
                    old(self).hashes().push(info_hash@)
                },
                Some(LsdCommand::Unregister { info_hash }) => without(
                    old(self).hashes(),
                    info_hash@,
                ),
                None => old(self).hashes(),
            }),
    {
        match cmd {
            Some(LsdCommand::Register { info_hash }) => {
                self.registered.insert(info_hash);
                true
            },
            Some(LsdCommand::Unregister { info_hash }) => {
                self.registered.remove(&info_hash);
                true
            },
            None => false,
        }
    }

    /// The announcement to send, unless there is nothing to announce.
    pub fn announce(&self) -> (r: Option<LsdAnnounce>)
        ensures
            match r {
                Some(a) => self.hashes().len() > 0 && a@ == (AnnounceModel {
                    port: self.told_port(),
                    info_hashes: self.hashes(),
                    cookie: Some(self.own_cookie()),
                }),
                None => self.hashes().len() == 0,
            },
    {
        if self.registered.len() == 0 {
            return None;
        }
        let info_hashes = self.registered.to_vec();
        Some(
            LsdAnnounce { port: self.listen_port, info_hashes, cookie: Some(self.cookie.clone()) },
        )
    }

    /// The peers that a message from `ip` tells of: none where it is no
    /// announcement, or one of the service's own.
    pub fn on_datagram(&self, bytes: &[u8], ip: PeerIp) -> (r: Vec<LsdDiscovery>)
        ensures
            match read_announce(bytes@) {
                Ok(a) => if a.cookie == Some(self.own_cookie()) {
                    r@.len() == 0
                } else {
                    discoveries(a, ip, r@)
                },
                Err(_) => r@.len() == 0,
            },
    {
        let mut found: Vec<LsdDiscovery> = Vec::new();
        let announce = match LsdAnnounce::decode(bytes) {
            Ok(a) => a,
            Err(_) => {
                return found;
            },
        };
        if let Some(cookie) = &announce.cookie {
            if *cookie == self.cookie {
                return found;
            }
        }
        let addr = PeerAddr { ip, port: announce.port };
        let mut i: usize = 0;
        while i < announce.info_hashes.len()
            invariant
                i <= announce.info_hashes@.len(),
                addr == (PeerAddr { ip, port: announce.port }),
                found@.len() == i,
                forall|j: int|
                    0 <= j < i ==> (#[trigger] found@[j]).info_hash == announce.info_hashes@[j]
                        && found@[j].addr == addr,
            decreases announce.info_hashes@.len() - i,
        {
            found.push(LsdDiscovery { info_hash: announce.info_hashes[i], addr });
            i = i + 1;
        }
        found
    }
}

/// A service never takes its own announcement for a peer: what it sends comes
/// back as nothing found.
pub proof fn law_own_announcement_is_known(service: LsdService, a: AnnounceModel)
    requires
        0 < a.info_hashes.len() <= MAX_INFOHASHES_PER_MESSAGE,
        forall|i: int| 0 <= i < a.info_hashes.len() ==> (#[trigger] a.info_hashes[i]).len() == 20,
        a.cookie == Some(service.own_cookie()),
        all_hex(service.own_cookie()),
    ensures
        read_announce(encode_utf8(announce_text(a))) == Ok::<AnnounceModel, LsdFault>(a),
        a.cookie == Some(service.own_cookie()),
{
    let c = service.own_cookie();
    assert forall|i: int| 0 <= i < c.len() implies '!' <= #[trigger] c[i] <= '~' by {
        assert(hex_value(c[i]) is Some);
    }
    lemma_visible_ends(c);
    law_announce_roundtrip(a);
}

/// An announcement tells of one peer per hash, in order: that of its sender, at the
/// port that it names.
pub proof fn law_announcement_tells_of_its_sender(
    a: AnnounceModel,
    ip: PeerIp,
    found: Seq<LsdDiscovery>,
    i: int,
)
    requires
        discoveries(a, ip, found),
    ensures
        found.len() == a.info_hashes.len(),
        0 <= i < found.len() ==> {
            &&& found[i].info_hash@ == a.info_hashes[i]
            &&& found[i].addr.ip == ip
            &&& found[i].addr.port == a.port
        },
{
}

/// A header changes what it names and nothing else: the port is the number it
/// gives, a hash comes behind those before it, a cookie is taken as it is, and an
/// unknown header says nothing. A port or hash that is none, and a hash too many,
/// make the message bad.
pub proof fn law_headers_say_what_they_name(h: Headers, key: Seq<char>, value: Seq<char>)
    ensures
        ({
            let r = h.with_field(key, value);
            &&& key == "port"@ ==> {
                &&& r is Ok <==> port_of(value) is Some
                &&& r is Ok ==> r->Ok_0.port == port_of(value) && r->Ok_0.info_hashes
                    == h.info_hashes && r->Ok_0.cookie == h.cookie
            }
            &&& key == "infohash"@ ==> {
                &&& r is Ok <==> hash_of(value) is Some && h.info_hashes.len() < 100
                &&& r is Ok ==> r->Ok_0.info_hashes == h.info_hashes.push(hash_of(value)->0)
                    && r->Ok_0.port == h.port && r->Ok_0.cookie == h.cookie
            }
            &&& key == "cookie"@ ==> r is Ok && r->Ok_0.cookie == Some(value) && r->Ok_0.port
                == h.port && r->Ok_0.info_hashes == h.info_hashes
            &&& (key != "port"@ && key != "infohash"@ && key != "cookie"@) ==> r == Ok::<
                Headers,
                LsdFault,
            >(h)
        }),
        h.complete() is Ok <==> h.port is Some && h.info_hashes.len() > 0,
        h.complete() matches Ok(a) ==> Some(a.port) == h.port && a.info_hashes == h.info_hashes
            && a.cookie == h.cookie,
        h.port is None ==> h.complete() == Err::<AnnounceModel, LsdFault>(LsdFault::MissingPort),
        (h.port is Some && h.info_hashes.len() == 0) ==> h.complete() == Err::<
            AnnounceModel,
            LsdFault,
        >(LsdFault::MissingInfoHash),
{
    reveal_strlit("port");
    reveal_strlit("infohash");
    reveal_strlit("cookie");
    assert("port"@.len() == 4 && "infohash"@.len() == 8 && "cookie"@.len() == 6);
}

/// A port is a number from 0 to 65535 in digits, and the number is what it says.
pub proof fn law_port_is_its_number(port: u16)
    ensures
        port_of(number_text(port as nat)) == Some(port),
        hash_of(Seq::empty()) is None,
        port_of(Seq::empty()) is None,
{
    lemma_port_text(port);
}

} // verus!
