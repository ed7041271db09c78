//! The pairing QR: what it encodes (public key, LAN address, app version,
//! device name and type) and how the pairing card's content is decided,
//! including every way building it can fail.

use vstd::prelude::*;
use crate::peers::{device_hostname, host_label, ipv4_text, ipv4_to_string, lan_ipv4, usable_ipv4s};
use crate::text::{
    chars_of, push_str, strip_prefix_opt, strip_suffixes, strip_suffixes_vec, slice_vec,
    starts_with_vec, string_of, trim_spec, trim_ws, Trim,
};

verus! {

/// Why the QR encoder refused a payload (the encoder's own error kinds).
#[derive(Clone, Copy, Debug, PartialEq, Eq, Structural)]
pub enum QrFailure {
    DataTooLong,
    InvalidVersion,
    UnsupportedCharacterSet,
    InvalidEciDesignator,
    InvalidCharacter,
}

/// Names what `qrcode::QrCode::new` makes of a payload: its modules row by
/// row (dark as `true`) with the number of modules per side, or the error.
pub uninterp spec fn qr_modules(payload: Seq<u8>) -> Result<(Seq<bool>, usize), QrFailure>;

/// `qrcode::QrCode::new` at its default error-correction level, read back
/// with `QrCode::to_vec` (dark modules as `true`) and `QrCode::width`. The
/// contract names the result and states that the module list is the square
/// of the width, as the encoder's canvas is built; the encoding itself is not
/// restated.
#[verifier::external_body]
#[allow(deprecated)]
fn qr_encode(payload: &[u8]) -> (r: Result<(Vec<bool>, usize), QrFailure>)
    ensures
        match r {
            Ok((m, w)) => qr_modules(payload@) == Ok::<(Seq<bool>, usize), QrFailure>((m@, w))
                && m@.len() == w * w,
            Err(e) => qr_modules(payload@) == Err::<(Seq<bool>, usize), QrFailure>(e),
        },
{
    match qrcode::QrCode::new(payload) {
        Ok(code) => Ok((code.to_vec(), code.width())),
        Err(qrcode::types::QrError::DataTooLong) => Err(QrFailure::DataTooLong),
        Err(qrcode::types::QrError::InvalidVersion) => Err(QrFailure::InvalidVersion),
        Err(qrcode::types::QrError::UnsupportedCharacterSet) => Err(QrFailure::UnsupportedCharacterSet),
        Err(qrcode::types::QrError::InvalidEciDesignator) => Err(QrFailure::InvalidEciDesignator),
        Err(qrcode::types::QrError::InvalidCharacter) => Err(QrFailure::InvalidCharacter),
    }
}

/// The encoder's message for each error kind.
pub open spec fn qr_failure_text(e: QrFailure) -> Seq<char> {
    match e {
        QrFailure::DataTooLong => "data too long"@,
        QrFailure::InvalidVersion => "invalid version"@,
        QrFailure::UnsupportedCharacterSet => "unsupported character set"@,
        QrFailure::InvalidEciDesignator => "invalid ECI designator"@,
        QrFailure::InvalidCharacter => "invalid character"@,
    }
}

impl QrFailure {
    /// The error's message.
    pub fn message(&self) -> (s: &'static str)
        ensures
            s@ == qr_failure_text(*self),
    {
        match self {
            QrFailure::DataTooLong => "data too long",
            QrFailure::InvalidVersion => "invalid version",
            QrFailure::UnsupportedCharacterSet => "unsupported character set",
            QrFailure::InvalidEciDesignator => "invalid ECI designator",
            QrFailure::InvalidCharacter => "invalid character",
        }
    }
}

/// What the pairing card shows: an error, or the paired identity with the
/// QR modules (row-major, `size` x `size`).
#[derive(Clone, Debug, PartialEq)]
pub struct PairingInfo {
    pub error: Option<String>,
    pub public_key: Option<String>,
    pub name: Option<String>,
    pub device_type: Option<String>,
    pub ip: Option<String>,
    pub version: Option<String>,
    pub matrix: Option<Vec<bool>>,
    pub size: usize,
}

/// The pairing card as plain values.
pub enum PairingView {
    /// Building failed with this message.
    Error(Seq<char>),
    /// Public key, name, device type, address, version, modules and width.
    Ready {
        public_key: Seq<char>,
        name: Seq<char>,
        device_type: Seq<char>,
        ip: Seq<char>,
        version: Seq<char>,
        matrix: Seq<bool>,
        size: usize,
    },
}

/// The text an optional string holds.
pub open spec fn opt_text(o: Option<String>) -> Option<Seq<char>> {
    match o {
        Some(s) => Some(s@),
        None => None,
    }
}

/// Whether the card shows `v`: an error leaves every other field empty.
pub open spec fn shows(info: PairingInfo, v: PairingView) -> bool {
    match v {
        PairingView::Error(m) => {
            &&& opt_text(info.error) == Some(m)
            &&& info.public_key is None && info.name is None && info.device_type is None
            &&& info.ip is None && info.version is None && info.matrix is None
            &&& info.size == 0
        },
        PairingView::Ready { public_key, name, device_type, ip, version, matrix, size } => {
            &&& info.error is None
            &&& opt_text(info.public_key) == Some(public_key)
            &&& opt_text(info.name) == Some(name)
            &&& opt_text(info.device_type) == Some(device_type)
            &&& opt_text(info.ip) == Some(ip)
            &&& opt_text(info.version) == Some(version)
            &&& (match info.matrix {
                Some(m) => m@ == matrix,
                None => false,
            })
            &&& info.size == size
        },
    }
}

fn error_info(message: String) -> (info: PairingInfo)
    ensures
        shows(info, PairingView::Error(message@)),
{
    PairingInfo {
        error: Some(message),
        public_key: None,
        name: None,
        device_type: None,
        ip: None,
        version: None,
        matrix: None,
        size: 0,
    }
}

/// The device name shown and encoded: the host name without its
/// `tumbleweed-` prefix and `.local` suffixes.
pub open spec fn pairing_name(host: Seq<char>) -> Seq<char> {
    let h = match strip_prefix_opt(host, "tumbleweed-"@) {
        Some(rest) => rest,
        None => host,
    };
    strip_suffixes(h, ".local"@)
}

/// The JSON the QR encodes: the public key, the LAN address, the version,
/// the name, the type `pc` and the one-time pairing token a phone logs in
/// with to register its key.
pub open spec fn pairing_payload(
    pk: Seq<char>,
    ip: Seq<char>,
    version: Seq<char>,
    name: Seq<char>,
    token: Seq<char>,
) -> Seq<char> {
    "{\"pk\":\""@ + pk + "\",\"ip\":\""@ + ip + "\",\"v\":\""@ + version + "\",\"name\":\""@ + name
        + "\",\"type\":\"pc\",\"token\":\""@ + token + "\"}"@
}

/// The card for an encoded QR, or for the encoder's refusal.
pub open spec fn pairing_from_qr_spec(
    pk: Seq<char>,
    name: Seq<char>,
    ip: Seq<char>,
    version: Seq<char>,
    qr: Result<(Seq<bool>, usize), QrFailure>,
) -> PairingView {
    match qr {
        Ok((m, w)) => PairingView::Ready {
            public_key: pk,
            name,
            device_type: "pc"@,
            ip,
            version,
            matrix: m,
            size: w,
        },
        Err(e) => PairingView::Error("Could not render QR code: "@ + qr_failure_text(e)),
    }
}

/// The card once the QR encoder has answered.
pub fn pairing_from_qr(
    pk: String,
    name: String,
    ip: String,
    version: String,
    qr: Result<(Vec<bool>, usize), QrFailure>,
) -> (info: PairingInfo)
    ensures
        shows(
            info,
            pairing_from_qr_spec(
                pk@,
                name@,
                ip@,
                version@,
                match qr {
                    Ok((m, w)) => Ok((m@, w)),
                    Err(e) => Err(e),
                },
            ),
        ),
{
    match qr {
        Ok((m, w)) => PairingInfo {
            error: None,
            public_key: Some(pk),
            name: Some(name),
            device_type: Some(String::from_str("pc")),
            ip: Some(ip),
            version: Some(version),
            matrix: Some(m),
            size: w,
        },
        Err(e) => {
            let mut msg = String::new();
            push_str(&mut msg, "Could not render QR code: ");
            push_str(&mut msg, e.message());
            error_info(msg)
        },
    }
}

/// The device name for a host name.
pub fn pairing_name_of(host: &str) -> (s: String)
    ensures
        s@ == pairing_name(host@),
{
    let v = chars_of(host);
    let pre = chars_of("tumbleweed-");
    let h = if starts_with_vec(&v, &pre) {
        slice_vec(&v, pre.len(), v.len())
    } else {
        slice_vec(&v, 0, v.len())
    };
    assert(v@.subrange(0, v@.len() as int) == v@);
    proof {
        reveal_strlit(".local");
    }
    string_of(&strip_suffixes_vec(&h, &chars_of(".local")))
}

/// The pairing JSON for the QR.
pub fn pairing_payload_text(pk: &str, ip: &str, version: &str, name: &str, token: &str) -> (s: String)
    ensures
        s@ == pairing_payload(pk@, ip@, version@, name@, token@),
{
    let mut s = String::new();
    push_str(&mut s, "{\"pk\":\"");
    push_str(&mut s, pk);
    push_str(&mut s, "\",\"ip\":\"");
    push_str(&mut s, ip);
    push_str(&mut s, "\",\"v\":\"");
    push_str(&mut s, version);
    push_str(&mut s, "\",\"name\":\"");
    push_str(&mut s, name);
    push_str(&mut s, "\",\"type\":\"pc\",\"token\":\"");
    push_str(&mut s, token);
    push_str(&mut s, "\"}");
    s
}

/// How building the pairing card goes, up to the QR encoder: the key
/// generation error, a missing public key and a missing LAN address each
/// give their message; otherwise the card holds the trimmed public key, the
/// name of the host, the first usable address and the version.
pub open spec fn pairing_spec(
    keygen: Result<(), Seq<char>>,
    pk_file: Option<Seq<char>>,
    lan: Option<[u8; 4]>,
    host: Seq<char>,
    version: Seq<char>,
    token: Seq<char>,
) -> PairingView {
    match keygen {
        Err(e) => PairingView::Error("Could not generate SSH key pair: "@ + e),
        Ok(()) => match pk_file {
            None => PairingView::Error("Generated the key pair but could not read the public key."@),
            Some(f) => match lan {
                None => PairingView::Error("Could not determine this device's LAN IP address."@),
                Some(ip) => {
                    let pk = trim_spec(f, Trim::Whitespace);
                    let name = pairing_name(host);
                    let ip_text = ipv4_text(ip@);
                    pairing_from_qr_spec(
                        pk,
                        name,
                        ip_text,
                        version,
                        qr_modules(vstd::utf8::encode_utf8(pairing_payload(pk, ip_text, version, name, token))),
                    )
                },
            },
        },
    }
}

/// Builds the pairing card: never fails hard, every failure becomes the
/// card's error. `keygen` is how generating the key pair went,
/// `public_key_file` the public key file's text if it could be read,
/// `candidates` the route probes for the LAN address, `computer_name` the
/// machine's name, `version` the app's version and `token` the current
/// one-time pairing token. The QR has `size` x `size` modules.
pub fn build_pairing_info(
    keygen: Result<(), String>,
    public_key_file: Option<String>,
    candidates: &[Option<[u8; 4]>],
    computer_name: &str,
    version: &str,
    token: &str,
) -> (info: PairingInfo)
    ensures
        shows(
            info,
            pairing_spec(
                match keygen {
                    Ok(()) => Ok(()),
                    Err(e) => Err(e@),
                },
                opt_text(public_key_file),
                if usable_ipv4s(candidates@).len() > 0 {
                    Some(usable_ipv4s(candidates@)[0])
                } else {
                    None
                },
                "tumbleweed-"@ + host_label(computer_name@) + ".local"@,
                version@,
                token@,
            ),
        ),
        info.matrix matches Some(m) ==> m@.len() == info.size * info.size,
{
    match keygen {
        Err(e) => {
            let mut msg = String::new();
            push_str(&mut msg, "Could not generate SSH key pair: ");
            push_str(&mut msg, e.as_str());
            return error_info(msg);
        },
        Ok(()) => {},
    }
    let pk = match public_key_file {
        Some(f) => trim_ws(f.as_str()),
        None => {
            return error_info(String::from_str("Generated the key pair but could not read the public key."));
        },
    };
    let ip = match lan_ipv4(candidates) {
        Some(ip) => ip,
        None => {
            return error_info(String::from_str("Could not determine this device's LAN IP address."));
        },
    };
    let host = device_hostname(computer_name);
    let name = pairing_name_of(host.as_str());
    let ip_text = ipv4_to_string(ip);
    let version_text = String::from_str(version);
    let payload = pairing_payload_text(pk.as_str(), ip_text.as_str(), version, name.as_str(), token);
    let qr = qr_encode(payload.as_str().as_bytes());
    pairing_from_qr(pk, name, ip_text, version_text, qr)
}

/// The arguments `ssh-keygen` gets to create the key pair at `path`: an
/// Ed25519 key with no passphrase and the comment `tumbleweed@local`.
pub fn keygen_args(path: &str) -> (args: Vec<String>)
    ensures
        args@.map_values(|s: String| s@) == seq![
            "-t"@,
            "ed25519"@,
            "-f"@,
            path@,
            "-N"@,
            ""@,
            "-C"@,
            "tumbleweed@local"@,
        ],
{
    let mut args: Vec<String> = Vec::new();
    args.push(String::from_str("-t"));
    args.push(String::from_str("ed25519"));
    args.push(String::from_str("-f"));
    args.push(String::from_str(path));
    args.push(String::from_str("-N"));
    args.push(String::from_str(""));
    args.push(String::from_str("-C"));
    args.push(String::from_str("tumbleweed@local"));
    assert(args@.map_values(|s: String| s@) =~= seq![
        "-t"@,
        "ed25519"@,
        "-f"@,
        path@,
        "-N"@,
        ""@,
        "-C"@,
        "tumbleweed@local"@,
    ]);
    args
}

/// The identity line under the QR: `name, type, ip, vversion` (missing
/// fields left empty).
pub fn pairing_meta(info: &PairingInfo) -> (s: String)
    ensures
        s@ == opt_or_empty(opt_text(info.name)) + ", "@ + opt_or_empty(opt_text(info.device_type))
            + ", "@ + opt_or_empty(opt_text(info.ip)) + ", v"@ + opt_or_empty(opt_text(info.version)),
{
    let mut s = String::new();
    push_opt(&mut s, &info.name);
    push_str(&mut s, ", ");
    push_opt(&mut s, &info.device_type);
    push_str(&mut s, ", ");
    push_opt(&mut s, &info.ip);
    push_str(&mut s, ", v");
    push_opt(&mut s, &info.version);
    s
}

/// The text, or nothing.
pub open spec fn opt_or_empty(o: Option<Seq<char>>) -> Seq<char> {
    match o {
        Some(t) => t,
        None => Seq::empty(),
    }
}

fn push_opt(s: &mut String, o: &Option<String>)
    ensures
        final(s)@ == old(s)@ + opt_or_empty(opt_text(*o)),
{
    match o {
        Some(t) => push_str(s, t.as_str()),
        None => {
            assert(old(s)@ + Seq::<char>::empty() =~= old(s)@);
        },
    }
}

/// The caption the pairing card shows in place of the QR: a prompt before
/// any key pair was generated, the error of a failed build, a placeholder
/// while no modules are there; `None` when the QR can be drawn.
pub fn pairing_caption(pairing: &Option<PairingInfo>) -> (r: Option<String>)
    ensures
        match pairing {
            None => r matches Some(c) && c@ == "Tap \"Generate key pair\" first, then expand this to see the QR code."@,
            Some(info) => match info.error {
                Some(e) => r matches Some(c) && c@ == e@,
                None => match info.matrix {
                    Some(_) => r is None,
                    None => r matches Some(c) && c@ == "Rendering QR code\u{2026}"@,
                },
            },
        },
{
    match pairing {
        None => Some(String::from_str("Tap \"Generate key pair\" first, then expand this to see the QR code.")),
        Some(info) => match &info.error {
            Some(e) => Some(e.clone()),
            None => match &info.matrix {
                Some(_) => None,
                None => Some(String::from_str("Rendering QR code\u{2026}")),
            },
        },
    }
}

} // verus!
