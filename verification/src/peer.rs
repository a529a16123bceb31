use vstd::prelude::*;

use crate::utils::{
    Address, MessageCodecError, buf_bytes, buf_extend, buf_len, buf_new, buf_put_u16, buf_put_u8,
    buf_put_u64, buf_split_to, buf_byte_at, get_nstring, lemma_concat_assoc,
    lemma_concat_take_skip, lemma_trim_zeros_id,
    lemma_u16_be_roundtrip, lemma_u64_be_roundtrip, spec_u16_from_be_bytes, spec_u16_to_be_bytes,
    spec_u64_from_be_bytes, spec_u64_to_be_bytes, take_u16, take_u64, trim_zeros,
};

verus! {

/// Identity of a node: the service address it advertises, whether it accepts
/// unsolicited dials, and three optional self-declared strings, kept as UTF-8
/// bytes. The address alone identifies the peer.
#[derive(Debug, PartialEq)]
pub struct Peer {
    pub address: Address,
    pub accept_incoming: bool,
    pub name: Option<Vec<u8>>,
    pub public_key: Option<Vec<u8>>,
    pub signature: Option<Vec<u8>>,
}

/// The mathematical value of a `Peer`.
#[verifier::ext_equal]
pub ghost struct PeerView {
    pub address: Address,
    pub accept_incoming: bool,
    pub name: Option<Seq<u8>>,
    pub public_key: Option<Seq<u8>>,
    pub signature: Option<Seq<u8>>,
}

pub open spec fn opt_bytes_view(o: Option<Vec<u8>>) -> Option<Seq<u8>> {
    match o {
        Some(v) => Some(v@),
        None => None,
    }
}

impl View for Peer {
    type V = PeerView;

    open spec fn view(&self) -> PeerView {
        PeerView {
            address: self.address,
            accept_incoming: self.accept_incoming,
            name: opt_bytes_view(self.name),
            public_key: opt_bytes_view(self.public_key),
            signature: opt_bytes_view(self.signature),
        }
    }
}

/// An optional string can be written with its one-byte length prefix.
pub open spec fn opt_str_encodable(o: Option<Seq<u8>>) -> bool {
    match o {
        Some(s) => s.len() <= 255,
        None => true,
    }
}

/// An optional string survives the round trip through the wire form: it is
/// either absent or non-empty without trailing NUL padding.
pub open spec fn wf_opt_str(o: Option<Seq<u8>>) -> bool {
    match o {
        Some(s) => 0 < s.len() <= 255 && s[s.len() - 1] != 0,
        None => true,
    }
}

/// The peer's strings fit their one-byte length prefixes.
pub open spec fn peer_encodable(p: PeerView) -> bool {
    opt_str_encodable(p.name) && opt_str_encodable(p.public_key) && opt_str_encodable(p.signature)
}

/// The peer survives the round trip through the wire form.
pub open spec fn wf_peer(p: PeerView) -> bool {
    wf_opt_str(p.name) && wf_opt_str(p.public_key) && wf_opt_str(p.signature)
}

/// Wire form of an optional string: a one-byte length, zero meaning absent,
/// followed by the bytes.
pub open spec fn spec_opt_str_u8(o: Option<Seq<u8>>) -> Seq<u8> {
    match o {
        Some(s) => seq![s.len() as u8] + s,
        None => seq![0u8],
    }
}

/// Wire form of a peer: the address length (always 16), the sixteen address
/// octets, the port, the accept flag, then name, public key and signature.
pub open spec fn spec_peer_bytes(p: PeerView) -> Seq<u8> {
    spec_u64_to_be_bytes(16) + spec_u64_to_be_bytes(p.address.ip_hi) + spec_u64_to_be_bytes(
        p.address.ip_lo,
    ) + spec_u16_to_be_bytes(p.address.port) + seq![
        (if p.accept_incoming {
            1u8
        } else {
            0u8
        }),
    ] + spec_opt_str_u8(p.name) + spec_opt_str_u8(p.public_key) + spec_opt_str_u8(p.signature)
}

pub open spec fn spec_parse_optstr(s: Seq<u8>) -> Result<
    (Option<Seq<u8>>, Seq<u8>),
    MessageCodecError,
> {
    if s.len() < 1 {
        Err(MessageCodecError::SerializationError)
    } else {
        let n = s[0] as int;
        let t = s.skip(1);
        if n == 0 {
            Ok((None, t))
        } else if t.len() < n {
            Err(MessageCodecError::DataLengthMismatch)
        } else {
            Ok((Some(trim_zeros(t.take(n))), t.skip(n)))
        }
    }
}

#[verifier::opaque]
pub open spec fn spec_parse_peer(s: Seq<u8>) -> Result<(PeerView, Seq<u8>), MessageCodecError> {
    if s.len() < 8 {
        Err(MessageCodecError::SerializationError)
    } else {
        let iplen = spec_u64_from_be_bytes(s.take(8));
        let s1 = s.skip(8);
        if iplen != 16 {
            Err(MessageCodecError::DataLengthMismatch)
        } else if s1.len() < 19 {
            Err(MessageCodecError::SerializationError)
        } else {
            let ip_hi = spec_u64_from_be_bytes(s1.take(8));
            let r1 = s1.skip(8);
            let ip_lo = spec_u64_from_be_bytes(r1.take(8));
            let r2 = r1.skip(8);
            let port = spec_u16_from_be_bytes(r2.take(2));
            let r3 = r2.skip(2);
            let address = Address { ip_hi, ip_lo, port };
            let accept_incoming = r3[0] == 1;
            let s2 = r3.skip(1);
            match spec_parse_optstr(s2) {
                Err(e) => Err(e),
                Ok((name, s3)) => match spec_parse_optstr(s3) {
                    Err(e) => Err(e),
                    Ok((public_key, s4)) => match spec_parse_optstr(s4) {
                        Err(e) => Err(e),
                        Ok((signature, s5)) => Ok(
                            (
                                PeerView {
                                    address,
                                    accept_incoming,
                                    name,
                                    public_key,
                                    signature,
                                },
                                s5,
                            ),
                        ),
                    },
                },
            }
        }
    }
}

impl Peer {
    pub fn new(
        address: Address,
        accept_incoming: bool,
        name: Option<Vec<u8>>,
        public_key: Option<Vec<u8>>,
        signature: Option<Vec<u8>>,
    ) -> (r: Peer)
        ensures
            r@ == (PeerView {
                address,
                accept_incoming,
                name: opt_bytes_view(name),
                public_key: opt_bytes_view(public_key),
                signature: opt_bytes_view(signature),
            }),
    {
        Peer { address, accept_incoming, name, public_key, signature }
    }

    /// Moves the peer to a new service address and hands back a copy.
    pub fn update_addr(&mut self, addr: Address) -> (r: Peer)
        ensures
            final(self)@ == (PeerView { address: addr, ..old(self)@ }),
            r@ == final(self)@,
    {
        self.address = addr;
        self.clone()
    }

    /// The local node's own identity for a given endpoint.
    pub fn get_self(addr: Address) -> (r: Peer)
        ensures
            r@ == (PeerView {
                address: addr,
                accept_incoming: true,
                name: Some(seq![84u8, 69u8, 83u8, 84u8]),
                public_key: Some(seq![65u8, 66u8, 67u8, 49u8, 50u8, 51u8]),
                signature: Some(seq![90u8, 89u8, 88u8, 57u8, 56u8, 55u8]),
            }),
    {
        let name: Vec<u8> = vec![84u8, 69u8, 83u8, 84u8];
        let public_key: Vec<u8> = vec![65u8, 66u8, 67u8, 49u8, 50u8, 51u8];
        let signature: Vec<u8> = vec![90u8, 89u8, 88u8, 57u8, 56u8, 55u8];
        assert(name@ =~= seq![84u8, 69u8, 83u8, 84u8]);
        assert(public_key@ =~= seq![65u8, 66u8, 67u8, 49u8, 50u8, 51u8]);
        assert(signature@ =~= seq![90u8, 89u8, 88u8, 57u8, 56u8, 55u8]);
        Peer::new(addr, true, Some(name), Some(public_key), Some(signature))
    }

    /// Writes the peer in its wire form.
    pub fn to_bytes(&self) -> (r: bytes::BytesMut)
        requires
            peer_encodable(self@),
        ensures
            buf_bytes(r) == spec_peer_bytes(self@),
    {
        let mut buf = buf_new();
        buf_put_u64(&mut buf, 16);
        buf_put_u64(&mut buf, self.address.ip_hi);
        buf_put_u64(&mut buf, self.address.ip_lo);
        buf_put_u16(&mut buf, self.address.port);
        if self.accept_incoming {
            buf_put_u8(&mut buf, 1);
        } else {
            buf_put_u8(&mut buf, 0);
        }
        put_opt_str(&mut buf, &self.name);
        put_opt_str(&mut buf, &self.public_key);
        put_opt_str(&mut buf, &self.signature);
        proof {
            assert(buf_bytes(buf) =~= spec_peer_bytes(self@));
        }
        buf
    }

    /// Reads one peer off the front of the buffer.
    pub fn from_bytes(buf: &mut bytes::BytesMut) -> (r: Result<Peer, MessageCodecError>)
        ensures
            match spec_parse_peer(buf_bytes(*old(buf))) {
                Ok((pv, rest)) => r matches Ok(p) && p@ == pv && buf_bytes(*final(buf)) == rest,
                Err(e) => r == Err::<Peer, MessageCodecError>(e),
            },
    {
        proof {
            reveal(spec_parse_peer);
        }
        let ghost s = buf_bytes(*buf);
        let iplen = match take_u64(buf) {
            Ok(v) => v,
            Err(e) => {
                return Err(e);
            },
        };
        if iplen != 16 {
            return Err(MessageCodecError::DataLengthMismatch);
        }
        let ghost s1 = buf_bytes(*buf);
        if buf_len(buf) < 19 {
            return Err(MessageCodecError::SerializationError);
        }
        let ip_hi = match take_u64(buf) {
            Ok(v) => v,
            Err(e) => {
                return Err(e);
            },
        };
        let ip_lo = match take_u64(buf) {
            Ok(v) => v,
            Err(e) => {
                return Err(e);
            },
        };
        let port = match take_u16(buf) {
            Ok(v) => v,
            Err(e) => {
                return Err(e);
            },
        };
        let accept_byte = buf_byte_at(buf, 0);
        let _ = buf_split_to(buf, 1);
        let address = Address { ip_hi, ip_lo, port };
        let accept_incoming = accept_byte == 1;
        let name = match read_opt_str(buf) {
            Ok(v) => v,
            Err(e) => {
                return Err(e);
            },
        };
        let public_key = match read_opt_str(buf) {
            Ok(v) => v,
            Err(e) => {
                return Err(e);
            },
        };
        let signature = match read_opt_str(buf) {
            Ok(v) => v,
            Err(e) => {
                return Err(e);
            },
        };
        Ok(Peer { address, accept_incoming, name, public_key, signature })
    }
}

impl Clone for Peer {
    fn clone(&self) -> (r: Peer)
        ensures
            r@ == self@,
    {
        Peer {
            address: self.address,
            accept_incoming: self.accept_incoming,
            name: clone_opt_bytes(&self.name),
            public_key: clone_opt_bytes(&self.public_key),
            signature: clone_opt_bytes(&self.signature),
        }
    }
}

/// Byte-for-byte copy of a vector.
pub fn copy_bytes(v: &Vec<u8>) -> (r: Vec<u8>)
    ensures
        r@ == v@,
{
    let mut r: Vec<u8> = Vec::new();
    let mut i: usize = 0;
    while i < v.len()
        invariant
            i <= v@.len(),
            r@ == v@.take(i as int),
        decreases v@.len() - i,
    {
        r.push(v[i]);
        i = i + 1;
        assert(r@ =~= v@.take(i as int));
    }
    assert(r@ =~= v@);
    r
}

/// Copy of an optional byte string.
pub fn clone_opt_bytes(o: &Option<Vec<u8>>) -> (r: Option<Vec<u8>>)
    ensures
        opt_bytes_view(r) == opt_bytes_view(*o),
{
    match o {
        Some(v) => Some(copy_bytes(v)),
        None => None,
    }
}

/// Appends an optional string in its length-prefixed wire form.
fn put_opt_str(buf: &mut bytes::BytesMut, o: &Option<Vec<u8>>)
    requires
        opt_str_encodable(opt_bytes_view(*o)),
    ensures
        buf_bytes(*final(buf)) == buf_bytes(*old(buf)) + spec_opt_str_u8(opt_bytes_view(*o)),
{
    match o {
        Some(v) => {
            buf_put_u8(buf, v.len() as u8);
            buf_extend(buf, v.as_slice());
            assert(buf_bytes(*buf) =~= buf_bytes(*old(buf)) + spec_opt_str_u8(
                opt_bytes_view(*o),
            ));
        },
        None => {
            buf_put_u8(buf, 0);
            assert(buf_bytes(*buf) =~= buf_bytes(*old(buf)) + spec_opt_str_u8(
                opt_bytes_view(*o),
            ));
        },
    }
}

/// Reads one length-prefixed optional string off the front of the buffer.
fn read_opt_str(buf: &mut bytes::BytesMut) -> (r: Result<Option<Vec<u8>>, MessageCodecError>)
    ensures
        match spec_parse_optstr(buf_bytes(*old(buf))) {
            Ok((o, rest)) => r matches Ok(v) && opt_bytes_view(v) == o && buf_bytes(*final(buf))
                == rest,
            Err(e) => r == Err::<Option<Vec<u8>>, MessageCodecError>(e),
        },
{
    if buf_len(buf) < 1 {
        return Err(MessageCodecError::SerializationError);
    }
    let n = buf_byte_at(buf, 0);
    let _ = buf_split_to(buf, 1);
    if n == 0 {
        return Ok(None);
    }
    let n = n as usize;
    if buf_len(buf) < n {
        return Err(MessageCodecError::DataLengthMismatch);
    }
    let v = get_nstring(buf, n);
    Ok(v)
}

/// Bounds on the wire form of an optional string.
pub proof fn lemma_opt_str_len(o: Option<Seq<u8>>)
    requires
        wf_opt_str(o),
    ensures
        1 <= spec_opt_str_u8(o).len() <= 256,
{
}

/// Bounds on the wire form of a peer.
pub proof fn lemma_peer_bytes_len(p: PeerView)
    requires
        wf_peer(p),
    ensures
        30 <= spec_peer_bytes(p).len() <= 795,
{
    lemma_opt_str_len(p.name);
    lemma_opt_str_len(p.public_key);
    lemma_opt_str_len(p.signature);
}

/// Parsing an optional string written in its wire form recovers it and leaves
/// the remainder untouched.
pub proof fn lemma_parse_optstr_roundtrip(o: Option<Seq<u8>>, rest: Seq<u8>)
    requires
        wf_opt_str(o),
    ensures
        spec_parse_optstr(spec_opt_str_u8(o) + rest) == Ok::<
            (Option<Seq<u8>>, Seq<u8>),
            MessageCodecError,
        >((o, rest)),
{
    let b = spec_opt_str_u8(o) + rest;
    match o {
        None => {
            assert(b[0] == 0);
            assert(b.skip(1) =~= rest);
        },
        Some(s) => {
            assert(b[0] == s.len() as u8);
            assert(b.skip(1) =~= s + rest);
            let t = s + rest;
            let n = s.len() as int;
            assert(t.take(n) =~= s);
            assert(t.skip(n) =~= rest);
            lemma_trim_zeros_id(s);
        },
    }
}

/// A parsed peer can always be written back: its strings came from one-byte
/// length prefixes, and trimming never lengthens them.
pub proof fn lemma_parse_peer_encodable(s: Seq<u8>)
    ensures
        spec_parse_peer(s) matches Ok((pv, rest)) ==> peer_encodable(pv),
{
    reveal(spec_parse_peer);
    match spec_parse_peer(s) {
        Ok((pv, rest)) => {
            lemma_parse_optstr_encodable(s.skip(8).skip(8).skip(8).skip(2).skip(1));
            match spec_parse_optstr(s.skip(8).skip(8).skip(8).skip(2).skip(1)) {
                Ok((_, s3)) => {
                    lemma_parse_optstr_encodable(s3);
                    match spec_parse_optstr(s3) {
                        Ok((_, s4)) => {
                            lemma_parse_optstr_encodable(s4);
                        },
                        Err(_) => {},
                    }
                },
                Err(_) => {},
            }
        },
        Err(_) => {},
    }
}

/// A parsed optional string fits a one-byte length prefix.
pub proof fn lemma_parse_optstr_encodable(s: Seq<u8>)
    ensures
        spec_parse_optstr(s) matches Ok((o, rest)) ==> opt_str_encodable(o),
{
    if s.len() >= 1 {
        let n = s[0] as int;
        let t = s.skip(1);
        if n > 0 && t.len() >= n {
            crate::utils::lemma_trim_zeros_len(t.take(n));
        }
    }
}

/// Parsing a peer written in its wire form recovers it and leaves the
/// remainder untouched.
#[verifier::rlimit(100)]
#[verifier::spinoff_prover]
pub proof fn lemma_parse_peer_roundtrip(p: PeerView, rest: Seq<u8>)
    requires
        wf_peer(p),
    ensures
        spec_parse_peer(spec_peer_bytes(p) + rest) == Ok::<(PeerView, Seq<u8>), MessageCodecError>(
            (p, rest),
        ),
{
    reveal(spec_parse_peer);
    let b = spec_peer_bytes(p) + rest;
    lemma_u64_be_roundtrip(16);
    lemma_u64_be_roundtrip(p.address.ip_hi);
    lemma_u64_be_roundtrip(p.address.ip_lo);
    lemma_u16_be_roundtrip(p.address.port);
    let h0 = spec_u64_to_be_bytes(16);
    let h1 = spec_u64_to_be_bytes(p.address.ip_hi);
    let h2 = spec_u64_to_be_bytes(p.address.ip_lo);
    let h3 = spec_u16_to_be_bytes(p.address.port);
    let acc = seq![
        (if p.accept_incoming {
            1u8
        } else {
            0u8
        }),
    ];
    let n1 = spec_opt_str_u8(p.name);
    let n2 = spec_opt_str_u8(p.public_key);
    let n3 = spec_opt_str_u8(p.signature);
    let t3 = n3 + rest;
    let t2 = n2 + t3;
    let t1 = n1 + t2;
    let ta = acc + t1;
    let t_port = h3 + ta;
    let t_lo = h2 + t_port;
    let t_hi = h1 + t_lo;
    let a6 = h0 + h1 + h2 + h3 + acc + n1 + n2;
    let a5 = h0 + h1 + h2 + h3 + acc + n1;
    let a4 = h0 + h1 + h2 + h3 + acc;
    let a3 = h0 + h1 + h2 + h3;
    let a2 = h0 + h1 + h2;
    let a1 = h0 + h1;
    lemma_concat_assoc(a6, n3, rest);
    lemma_concat_assoc(a5, n2, t3);
    lemma_concat_assoc(a4, n1, t2);
    lemma_concat_assoc(a3, acc, t1);
    lemma_concat_assoc(a2, h3, ta);
    lemma_concat_assoc(a1, h2, t_port);
    lemma_concat_assoc(h0, h1, t_lo);
    assert(b == h0 + t_hi);
    lemma_concat_take_skip(h0, t_hi);
    let s1 = b.skip(8);
    assert(s1 == t_hi);
    lemma_concat_take_skip(h1, t_lo);
    lemma_concat_take_skip(h2, t_port);
    lemma_concat_take_skip(h3, ta);
    lemma_concat_take_skip(acc, t1);
    assert(ta[0] == acc[0]);
    lemma_parse_optstr_roundtrip(p.name, t2);
    lemma_parse_optstr_roundtrip(p.public_key, t3);
    lemma_parse_optstr_roundtrip(p.signature, rest);
    assert(spec_parse_peer(b) matches Ok((pv, r)) && pv =~= p && r == rest);
}

} // verus!
