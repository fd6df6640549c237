//! The TCP protocol: each message is a 4-byte big-endian length followed by
//! that many bytes of JSON.  A session must authenticate (when the server
//! requires it) before its commands run.
use vstd::prelude::*;
use crate::error::CassetteError;

verus! {

/// The largest request payload accepted, in bytes.
pub const MAX_REQUEST_LEN: u32 = 10_000_000;

/// The number that four bytes spell, most significant first.
pub open spec fn be_u32(b: Seq<u8>) -> nat {
    (b[0] as nat) * 0x1000000 + (b[1] as nat) * 0x10000 + (b[2] as nat) * 0x100 + (b[3] as nat)
}

/// The four bytes of `n`, most significant first.
pub open spec fn be_bytes(n: u32) -> Seq<u8> {
    seq![(n / 0x1000000) as u8, ((n / 0x10000) % 0x100) as u8, ((n / 0x100) % 0x100) as u8, (n % 0x100) as u8]
}

/// Reads a length prefix; a payload over `MAX_REQUEST_LEN` is refused.
pub fn frame_length(prefix: [u8; 4]) -> (r: Result<usize, CassetteError>)
    ensures
        match r {
            Ok(n) => n == be_u32(prefix@) && be_u32(prefix@) <= MAX_REQUEST_LEN,
            Err(e) => be_u32(prefix@) > MAX_REQUEST_LEN && e is Io,
        },
{
    let n: u64 = (prefix[0] as u64) * 0x1000000 + (prefix[1] as u64) * 0x10000 + (prefix[2] as u64) * 0x100
        + (prefix[3] as u64);
    if n > MAX_REQUEST_LEN as u64 {
        return Err(CassetteError::Io("request too large".to_string()));
    }
    Ok(n as usize)
}

/// Frames a response payload: its length, cut to 32 bits, then the payload.
pub fn encode_frame(payload: &Vec<u8>) -> (r: Vec<u8>)
    ensures
        r@ == be_bytes(payload@.len() as u32) + payload@,
{
    let len = payload.len() as u32;
    let mut out: Vec<u8> = Vec::new();
    out.push((len / 0x1000000) as u8);
    out.push(((len / 0x10000) % 0x100) as u8);
    out.push(((len / 0x100) % 0x100) as u8);
    out.push((len % 0x100) as u8);
    let mut i: usize = 0;
    while i < payload.len()
        invariant
            i <= payload.len(),
            out@ == be_bytes(len) + payload@.subrange(0, i as int),
            len == payload@.len() as u32,
        decreases payload.len() - i,
    {
        out.push(payload[i]);
        i = i + 1;
        assert(out@ =~= be_bytes(len) + payload@.subrange(0, i as int));
    }
    assert(payload@.subrange(0, i as int) =~= payload@);
    out
}

/// Reading back a length prefix gives the length that was written.
pub proof fn lemma_frame_roundtrip(n: u32)
    ensures
        be_u32(be_bytes(n)) == n,
{
    let a = n / 0x1000000;
    let r1 = n % 0x1000000;
    let b = r1 / 0x10000;
    let r2 = r1 % 0x10000;
    let c = r2 / 0x100;
    let d = r2 % 0x100;
    assert(n == a * 0x1000000 + b * 0x10000 + c * 0x100 + d) by (nonlinear_arith)
        requires
            a == n / 0x1000000,
            r1 == n % 0x1000000,
            b == r1 / 0x10000,
            r2 == r1 % 0x10000,
            c == r2 / 0x100,
            d == r2 % 0x100,
    ;
    assert((n / 0x10000) % 0x100 == b) by (nonlinear_arith)
        requires
            b == (n % 0x1000000) / 0x10000,
            n <= 0xffffffff,
    ;
    assert((n / 0x100) % 0x100 == c) by (nonlinear_arith)
        requires
            c == ((n % 0x1000000) % 0x10000) / 0x100,
            n <= 0xffffffff,
    ;
    assert(n % 0x100 == d) by (nonlinear_arith)
        requires
            d == ((n % 0x1000000) % 0x10000) % 0x100,
    ;
    assert(a < 0x100) by (nonlinear_arith)
        requires
            a == n / 0x1000000,
            n <= 0xffffffff,
    ;
}

/// What a session answers to a command.
#[derive(Debug, Clone, Copy, PartialEq, Eq, Structural)]
pub enum SessionReply {
    /// The token was accepted.
    Authenticated,
    /// The token was refused.
    InvalidToken,
    /// The command needs authentication first.
    NotAuthenticated,
    /// The command runs.
    Execute,
}

/// The state of one client connection.
#[derive(Debug)]
pub struct TcpSession {
    pub authenticated: bool,
}

impl TcpSession {
    /// A new connection: authenticated from the start when the server does
    /// not require authentication.
    pub fn new(auth_enabled: bool) -> (r: Self)
        ensures
            r.authenticated == !auth_enabled,
    {
        TcpSession { authenticated: !auth_enabled }
    }

    /// An `auth` command whose token the authenticator judged `valid`: the
    /// session is authenticated exactly when it is.
    pub fn on_auth(&mut self, valid: bool) -> (r: SessionReply)
        ensures
            final(self).authenticated == valid,
            r == if valid { SessionReply::Authenticated } else { SessionReply::InvalidToken },
    {
        self.authenticated = valid;
        if valid {
            SessionReply::Authenticated
        } else {
            SessionReply::InvalidToken
        }
    }

    /// Any other command: it runs only in an authenticated session.
    pub fn on_command(&self) -> (r: SessionReply)
        ensures
            r == if self.authenticated { SessionReply::Execute } else { SessionReply::NotAuthenticated },
    {
        if self.authenticated {
            SessionReply::Execute
        } else {
            SessionReply::NotAuthenticated
        }
    }
}

} // verus!
