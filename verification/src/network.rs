//! The sizes of a frame and the errors of a session.
use crate::crypto::{CryptoError, CHUNK_SIZE, TAG_LEN};
use crate::text;
use vstd::prelude::*;

verus! {

/// Length of the header: the payload length, u32 little-endian.
pub const LEN_LEN: usize = 4;

/// Largest payload of a frame.
pub const MAX_PAYLOAD: usize = CHUNK_SIZE;

/// Size of the buffer that a node reuses: header, full payload and tag.
pub const FRAME_BUF: usize = LEN_LEN + MAX_PAYLOAD + TAG_LEN;

/// `std::io::Error`, carried along as it came. Nothing is claimed of it.
#[verifier::external_type_specification]
#[verifier::external_body]
pub struct ExIoError(std::io::Error);

/// Why a session failed.
#[derive(Debug)]
pub enum TunnelError {
    /// An I/O error on the network or on the local source or sink.
    Io(std::io::Error),
    /// A cryptographic failure: the data is not authentic.
    Crypto(CryptoError),
    /// A malformed frame.
    Protocol(&'static str),
}

impl From<std::io::Error> for TunnelError {
    fn from(e: std::io::Error) -> (r: Self) {
        TunnelError::Io(e)
    }
}

impl vstd::std_specs::convert::FromSpecImpl<std::io::Error> for TunnelError {
    open spec fn obeys_from_spec() -> bool {
        true
    }

    open spec fn from_spec(e: std::io::Error) -> Self {
        TunnelError::Io(e)
    }
}

impl From<CryptoError> for TunnelError {
    fn from(e: CryptoError) -> (r: Self) {
        TunnelError::Crypto(e)
    }
}

impl vstd::std_specs::convert::FromSpecImpl<CryptoError> for TunnelError {
    open spec fn obeys_from_spec() -> bool {
        true
    }

    open spec fn from_spec(e: CryptoError) -> Self {
        TunnelError::Crypto(e)
    }
}

impl TunnelError {
    /// Renders the error. The text of an I/O error is the one that the error
    /// itself displays.
    pub fn message(&self) -> (r: String)
        ensures
            *self matches TunnelError::Crypto(CryptoError::Seal) ==> r@
                == "errore crittografico: "@ + "cifratura in-place fallita"@,
            *self matches TunnelError::Crypto(CryptoError::Open) ==> r@
                == "errore crittografico: "@
                + "verifica autenticazione fallita (dato non autentico)"@,
            match *self {
                TunnelError::Io(e) => exists|detail: String| #[trigger]
                    vstd::string::to_string_from_display_ensures::<std::io::Error>(&e, detail)
                        && r@ == "errore I/O: "@ + detail@,
                TunnelError::Crypto(e) => r@ == "errore crittografico: "@ + e.text(),
                TunnelError::Protocol(m) => r@ == "errore di protocollo: "@ + m@,
            },
    {
        match self {
            TunnelError::Io(e) => {
                let detail: String = e.to_string();
                text::concat("errore I/O: ", detail.as_str())
            },
            TunnelError::Crypto(e) => {
                let detail: String = e.message();
                text::concat("errore crittografico: ", detail.as_str())
            },
            TunnelError::Protocol(m) => text::concat("errore di protocollo: ", m),
        }
    }
}

/// The sizes of a frame: four bytes of header, up to 65536 of payload, and a
/// buffer that holds both and the 16 bytes of the tag.
pub proof fn law_frame_sizes()
    ensures
        LEN_LEN == 4,
        MAX_PAYLOAD == 65536,
        FRAME_BUF == 65556,
{
}

/// An I/O error and a cryptographic one end a session as what they are.
pub proof fn law_errors_are_kept(e: std::io::Error, c: CryptoError)
    ensures
        <TunnelError as vstd::std_specs::convert::FromSpec<std::io::Error>>::from_spec(e)
            == TunnelError::Io(e),
        <TunnelError as vstd::std_specs::convert::FromSpec<CryptoError>>::from_spec(c)
            == TunnelError::Crypto(c),
{
}

} // verus!
