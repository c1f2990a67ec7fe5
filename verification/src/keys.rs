//! Node identities as plain values.
//!
//! An identity is carried as its joined hexadecimal form: the secret key
//! followed by the public key. Everything that only the key library can
//! compute (parsing, generation, strength, address) is reached through the
//! small trusted functions at the top of this file.

use vstd::prelude::*;
use yggdrasil_keys::NodeIdentity;

verus! {

/// The joined hexadecimal form of the identity that
/// `NodeIdentity::from_hex(text, None)` yields, or `None` where it fails.
pub uninterp spec fn decoded_key(text: Seq<char>) -> Option<Seq<char>>;

/// What `NodeIdentity::strength` returns for the identity with this joined
/// hexadecimal form.
pub uninterp spec fn key_strength(key: Seq<char>) -> u32;

/// The sixteen octets of what `NodeIdentity::address` returns for the
/// identity with this joined hexadecimal form.
pub uninterp spec fn key_address(key: Seq<char>) -> Seq<u8>;

/// A text is canonical when it is the joined hexadecimal form of the very
/// identity that it decodes to.
pub open spec fn is_canonical(key: Seq<char>) -> bool {
    decoded_key(key) == Some(key)
}

/// The greatest strength for which an address can be derived: beyond it the
/// public key has too few bits left to fill the address.
pub const MAX_ADDRESS_STRENGTH: u32 = 150;

/// Number of hexadecimal digits of the secret half of a joined key.
pub const SECRET_HEX_LEN: usize = 64;

/// Trusted: calls `NodeIdentity::from_hex` with no separate public key and
/// renders a parsed identity with `NodeIdentity::to_hex_joined`. The contract
/// names the outcome and adds one fact: the rendered form decodes to itself,
/// because parsing keeps the secret key and the public key is derived from it.
#[verifier::external_body]
fn parse_key(text: &str) -> (r: Option<String>)
    ensures
        r is None <==> decoded_key(text@) is None,
        r matches Some(k) ==> decoded_key(text@) == Some(k@) && is_canonical(k@),
{
    match NodeIdentity::from_hex(text, None) {
        Ok(identity) => Some(identity.to_hex_joined()),
        Err(_) => None,
    }
}

/// Trusted: calls `NodeIdentity::new` on the thread's random generator and
/// renders the result with `NodeIdentity::to_hex_joined`. Which key comes back
/// is left open; whichever it is, its rendered form decodes to itself.
#[verifier::external_body]
fn fresh_key() -> (r: String)
    ensures
        is_canonical(r@),
{
    NodeIdentity::new(&mut rand::thread_rng()).to_hex_joined()
}

/// Trusted: calls `NodeIdentity::strength` on the identity parsed from `key`.
/// The count of leading zero bits of a public key derived from a secret key
/// never runs off the end of the key, so the call returns.
#[verifier::external_body]
fn strength_of_key(key: &str) -> (r: u32)
    requires
        is_canonical(key@),
    ensures
        r == key_strength(key@),
{
    NodeIdentity::from_hex(key, None).unwrap().strength()
}

/// Trusted: calls `NodeIdentity::to_hex_split` on the identity parsed from
/// `key`. The joined form is the secret half followed by the public half, and
/// the secret half is the hexadecimal form of 32 bytes.
#[verifier::external_body]
fn split_key(key: &str) -> (r: (String, String))
    requires
        is_canonical(key@),
    ensures
        r.0@ + r.1@ == key@,
        r.0@.len() == SECRET_HEX_LEN,
{
    NodeIdentity::from_hex(key, None).unwrap().to_hex_split()
}

/// Trusted: calls `NodeIdentity::address` on the identity parsed from `key`
/// and takes the address's octets. The call indexes past the remainder of the
/// public key for strengths above `MAX_ADDRESS_STRENGTH`, which the
/// precondition leaves out. The first octet is the network prefix `0x02`, the
/// second the strength.
#[verifier::external_body]
fn address_of_key(key: &str) -> (r: [u8; 16])
    requires
        is_canonical(key@),
        key_strength(key@) <= MAX_ADDRESS_STRENGTH,
    ensures
        r@ == key_address(key@),
        r@[0] == 2,
        r@[1] == key_strength(key@),
{
    NodeIdentity::from_hex(key, None).unwrap().address().octets()
}

/// A node identity, held as its canonical joined hexadecimal form.
pub struct Candidate {
    key: String,
}

impl View for Candidate {
    type V = Seq<char>;

    closed spec fn view(&self) -> Seq<char> {
        self.key@
    }
}

impl Candidate {
    #[verifier::type_invariant]
    spec fn canonical(self) -> bool {
        is_canonical(self.key@)
    }

    /// Parses a hexadecimal key. Succeeds exactly where the key library
    /// accepts the text, and then holds the identity's canonical form.
    pub fn from_hex(text: &str) -> (r: Option<Candidate>)
        ensures
            r is None <==> decoded_key(text@) is None,
            r matches Some(c) ==> decoded_key(text@) == Some(c@) && is_canonical(c@),
    {
        match parse_key(text) {
            Some(key) => Some(Candidate { key }),
            None => None,
        }
    }

    /// Draws a fresh identity from the thread's random generator.
    pub fn generate() -> (r: Candidate)
        ensures
            is_canonical(r@),
    {
        Candidate { key: fresh_key() }
    }

    /// The identity's strength.
    pub fn strength(&self) -> (r: u32)
        ensures
            r == key_strength(self@),
    {
        proof {
            use_type_invariant(self);
        }
        strength_of_key(self.key.as_str())
    }

    /// The canonical joined hexadecimal form: secret key, then public key.
    /// Decoding it gives this identity back.
    pub fn to_hex_joined(&self) -> (r: String)
        ensures
            r@ == self@,
            decoded_key(r@) == Some(self@),
    {
        proof {
            use_type_invariant(self);
        }
        self.key.clone()
    }

    /// The identity's two halves and its address, for a strength within
    /// `MAX_ADDRESS_STRENGTH`. The two halves, joined again, decode to this
    /// identity.
    pub fn describe(&self) -> (r: Output)
        requires
            key_strength(self@) <= MAX_ADDRESS_STRENGTH,
        ensures
            r.describes(self@),
            decoded_key(r.secret@ + r.public@) == Some(self@),
    {
        proof {
            use_type_invariant(self);
        }
        let (secret, public) = split_key(self.key.as_str());
        let address = address_of_key(self.key.as_str());
        Output { public, secret, address }
    }

    /// As `describe`, after measuring the strength: `None` exactly where the
    /// strength is beyond `MAX_ADDRESS_STRENGTH`.
    pub fn try_describe(&self) -> (r: Option<Output>)
        ensures
            r is Some <==> key_strength(self@) <= MAX_ADDRESS_STRENGTH,
            r matches Some(o) ==> o.describes(self@) && decoded_key(o.secret@ + o.public@) == Some(
                self@,
            ),
    {
        if self.strength() <= MAX_ADDRESS_STRENGTH {
            Some(self.describe())
        } else {
            None
        }
    }
}

impl Clone for Candidate {
    fn clone(&self) -> (r: Candidate)
        ensures
            r@ == self@,
    {
        proof {
            use_type_invariant(self);
        }
        Candidate { key: self.key.clone() }
    }
}

/// What a round hands out for the identity it consumes.
pub struct Output {
    pub public: String,
    pub secret: String,
    pub address: [u8; 16],
}

impl Output {
    /// The secret and public halves make up `key`, split after the secret's
    /// 64 digits, and the address is the one derived from `key`.
    pub open spec fn describes(&self, key: Seq<char>) -> bool {
        &&& self.secret@ + self.public@ == key
        &&& self.secret@.len() == SECRET_HEX_LEN
        &&& self.address@ == key_address(key)
        &&& self.address@[0] == 2
        &&& self.address@[1] == key_strength(key)
    }
}

} // verus!
