//! Signatures on messages: what is signed, and what a signature is worth.

use vstd::prelude::*;

use crate::json;
use crate::mesh::message::Letter;
use crate::mesh::message::Message;
use crate::mesh::node;
use crate::mesh::node::Node;
use crate::mesh::registry;
use crate::text;

verus! {

// ---- hexadecimal ----------------------------------------------------------

/// The value of a hexadecimal digit; -1 for any other character.
pub open spec fn hex_value(c: char) -> int {
    if '0' <= c <= '9' {
        c as int - '0' as int
    } else if 'a' <= c <= 'f' {
        c as int - 'a' as int + 10
    } else if 'A' <= c <= 'F' {
        c as int - 'A' as int + 10
    } else {
        -1
    }
}

/// The bytes that a text of hexadecimal digits stands for, two digits a byte.
pub open spec fn unhex(s: Seq<char>) -> Option<Seq<u8>> {
    if s.len() % 2 == 0 && forall|i: int| 0 <= i < s.len() ==> hex_value(#[trigger] s[i]) >= 0 {
        Some(
            Seq::new(
                s.len() / 2,
                |i: int| (hex_value(s[2 * i]) * 16 + hex_value(s[2 * i + 1])) as u8,
            ),
        )
    } else {
        None
    }
}

/// `hex::encode`: each byte as two digits, in lower case.
#[verifier::external_body]
fn to_hex(bytes: &Vec<u8>) -> (r: String)
    ensures
        r@ == node::hex_text(bytes@),
{
    hex::encode(bytes)
}

/// `hex::decode`: the bytes of a text that has an even number of digits and
/// nothing else, in either case.
#[verifier::external_body]
fn from_hex(s: &str) -> (r: Option<Vec<u8>>)
    ensures
        match r {
            Some(b) => unhex(s@) == Some(b@),
            None => unhex(s@) is None,
        },
{
    hex::decode(s).ok()
}

proof fn lemma_hex_byte(b: u8)
    ensures
        text::hexadecimal(b as nat, 2).len() == 2,
        hex_value(text::hexadecimal(b as nat, 2)[0]) == b as int / 16,
        hex_value(text::hexadecimal(b as nat, 2)[1]) == b as int % 16,
{
    let n = b as nat;
    assert(text::hexadecimal(n / 16 / 16, 0) =~= Seq::empty());
    assert(text::hexadecimal(n / 16, 1) =~= seq![text::hex_digit(((n / 16) % 16) as int)]);
    assert(text::hexadecimal(n, 2) =~= text::hexadecimal(n / 16, 1).push(
        text::hex_digit((n % 16) as int),
    ));
    assert((n / 16) % 16 == n / 16);
}

/// Bytes come back from their hexadecimal text.
pub proof fn hex_reads_back(b: Seq<u8>)
    ensures
        unhex(node::hex_text(b)) == Some(b),
    decreases b.len(),
{
    let s = node::hex_text(b);
    if b.len() == 0 {
        assert(unhex(s)->0 =~= b);
    } else {
        let c = b.drop_last();
        hex_reads_back(c);
        let t = node::hex_text(c);
        let last = text::hexadecimal(b.last() as nat, 2);
        lemma_hex_byte(b.last());
        assert(s == t + last);
        assert(unhex(t)->0.len() == c.len());
        assert(t.len() == 2 * c.len());
        assert forall|i: int| 0 <= i < s.len() implies hex_value(#[trigger] s[i]) >= 0 by {
            if i < t.len() {
                assert(s[i] == t[i]);
            } else {
                assert(s[i] == last[i - t.len()]);
            }
        }
        let r = unhex(s)->0;
        assert forall|i: int| 0 <= i < b.len() implies r[i] == b[i] by {
            if i < c.len() {
                assert(s[2 * i] == t[2 * i]);
                assert(s[2 * i + 1] == t[2 * i + 1]);
                assert(unhex(t)->0[i] == c[i]);
            } else {
                assert(s[2 * i] == last[0]);
                assert(s[2 * i + 1] == last[1]);
            }
        }
        assert(r =~= b);
    }
}

// ---- keys and signatures --------------------------------------------------

/// The public key of a secret key, as bytes.
pub uninterp spec fn public_key_of(seed: Seq<u8>) -> Seq<u8>;

/// The signature of a secret key on bytes.
pub uninterp spec fn signature_of(seed: Seq<u8>, message: Seq<u8>) -> Seq<u8>;

/// Whether bytes are a public key.
pub uninterp spec fn is_public_key(key: Seq<u8>) -> bool;

/// Whether a signature on bytes is good under a public key.
pub uninterp spec fn signature_holds(key: Seq<u8>, message: Seq<u8>, sig: Seq<u8>) -> bool;

/// `ed25519_dalek::SigningKey::from_bytes` and its `verifying_key`, as bytes:
/// the public key of a secret one, which the secret key alone decides. It has
/// 32 bytes and is a key that verification takes.
#[verifier::external_body]
fn public_key(seed: &Vec<u8>) -> (r: Vec<u8>)
    requires
        seed@.len() == 32,
    ensures
        r@ == public_key_of(seed@),
        r@.len() == 32,
        is_public_key(r@),
{
    let seed = <[u8; 32]>::try_from(seed.as_slice()).unwrap();
    ed25519_dalek::SigningKey::from_bytes(&seed).verifying_key().to_bytes().to_vec()
}

/// `ed25519_dalek::Signer::sign` of a `SigningKey`: the signature on bytes,
/// which the key and the bytes alone decide. It has 64 bytes and is good under
/// the public key of the key that made it.
#[verifier::external_body]
fn sign_bytes(seed: &Vec<u8>, message: &Vec<u8>) -> (r: Vec<u8>)
    requires
        seed@.len() == 32,
    ensures
        r@ == signature_of(seed@, message@),
        r@.len() == 64,
        signature_holds(public_key_of(seed@), message@, r@),
{
    let seed = <[u8; 32]>::try_from(seed.as_slice()).unwrap();
    let key = ed25519_dalek::SigningKey::from_bytes(&seed);
    ed25519_dalek::Signer::sign(&key, message.as_slice()).to_bytes().to_vec()
}

/// `ed25519_dalek::VerifyingKey::from_bytes`: whether 32 bytes are a public key,
/// which the bytes alone decide.
#[verifier::external_body]
fn check_key(key: &Vec<u8>) -> (r: bool)
    requires
        key@.len() == 32,
    ensures
        r == is_public_key(key@),
{
    let key = <[u8; 32]>::try_from(key.as_slice()).unwrap();
    ed25519_dalek::VerifyingKey::from_bytes(&key).is_ok()
}

/// `ed25519_dalek::Verifier::verify` of a `VerifyingKey`: whether a signature is
/// good, which the key, the bytes and the signature alone decide. That nobody
/// makes a good one without the secret key is left unsaid.
#[verifier::external_body]
fn check_signature(key: &Vec<u8>, message: &Vec<u8>, sig: &Vec<u8>) -> (r: bool)
    requires
        key@.len() == 32,
        is_public_key(key@),
        sig@.len() == 64,
    ensures
        r == signature_holds(key@, message@, sig@),
{
    let key = <[u8; 32]>::try_from(key.as_slice()).unwrap();
    let sig = <[u8; 64]>::try_from(sig.as_slice()).unwrap();
    let key = ed25519_dalek::VerifyingKey::from_bytes(&key).unwrap();
    let sig = ed25519_dalek::Signature::from_bytes(&sig);
    ed25519_dalek::Verifier::verify(&key, message.as_slice(), &sig).is_ok()
}

/// The secret key that a text holds: 32 bytes in hexadecimal.
pub open spec fn stored_key(s: Seq<char>) -> Option<Seq<u8>> {
    match unhex(text::trimmed(s)) {
        Some(b) => if b.len() == 32 {
            Some(b)
        } else {
            None
        },
        None => None,
    }
}

/// The secret key on record; `None` where the record holds none.
pub fn signing_key(raw: &str) -> (r: Option<Vec<u8>>)
    ensures
        match r {
            Some(b) => stored_key(raw@) == Some(b@) && b@.len() == 32,
            None => stored_key(raw@) is None,
        },
{
    match from_hex(text::trim(raw).as_str()) {
        Some(b) => if b.len() == 32 {
            Some(b)
        } else {
            None
        },
        None => None,
    }
}

/// The text that puts a secret key on record.
pub fn key_record(seed: &Vec<u8>) -> (r: String)
    requires
        seed@.len() == 32,
    ensures
        r@ == node::hex_text(seed@),
        stored_key(r@) == Some(seed@),
{
    proof {
        hex_reads_back(seed@);
        lemma_hex_trimmed(seed@);
    }
    to_hex(seed)
}

/// There is nothing to trim at a hexadecimal text.
proof fn lemma_hex_trimmed(b: Seq<u8>)
    requires
        b.len() > 0,
    ensures
        text::trimmed(node::hex_text(b)) == node::hex_text(b),
{
    let s = node::hex_text(b);
    hex_reads_back(b);
    assert(s.len() == 2 * b.len());
    assert forall|i: int| 0 <= i < s.len() implies !text::white(#[trigger] s[i]) by {
        assert(hex_value(s[i]) >= 0);
    }
    let (i, j) = text::lemma_trimmed_shape(s);
    if i > 0 {
        assert(text::white(s[0]));
    }
    if j < s.len() {
        assert(text::white(s[s.len() - 1]));
    }
    assert(s.subrange(0, s.len() as int) =~= s);
}

/// The public key of a secret key, in hexadecimal.
pub fn pubkey_hex(seed: &Vec<u8>) -> (r: String)
    requires
        seed@.len() == 32,
    ensures
        r@ == node::hex_text(public_key_of(seed@)),
        public_key_of(seed@).len() == 32,
        is_public_key(public_key_of(seed@)),
{
    to_hex(&public_key(seed))
}

// ---- what is signed -------------------------------------------------------

/// What is signed of a message: everything but the signature, as JSON without
/// whitespace, the names in their order.
pub open spec fn signable(m: Letter) -> Seq<char> {
    "{\"body\":"@ + json::quoted(m.body) + ",\"ext\":"@ + m.ext + ",\"from\":"@ + json::quoted(
        m.from,
    ) + ",\"id\":"@ + json::quoted(m.id) + ",\"kind\":"@ + json::quoted(m.kind) + ",\"ref\":"@
        + json::quoted_or_null(m.reference) + ",\"repo\":"@ + json::quoted_or_null(m.repo)
        + ",\"room\":"@ + json::quoted(m.room) + ",\"subject\":"@ + json::quoted(m.subject)
        + ",\"to\":"@ + json::quoted(m.to) + ",\"ts\":"@ + json::quoted(m.ts) + ",\"v\":"@
        + text::decimal(m.v as nat) + "}"@
}

/// The bytes that are signed of a message.
pub fn signable_bytes(m: &Message) -> (r: Vec<u8>)
    ensures
        r@ == vstd::utf8::encode_utf8(signable(m@)),
{
    let mut s = String::from_str("{\"body\":");
    s.append(json::quote(m.body.as_str()).as_str());
    s.append(",\"ext\":");
    s.append(m.ext.as_str());
    s.append(",\"from\":");
    s.append(json::quote(m.from.as_str()).as_str());
    s.append(",\"id\":");
    s.append(json::quote(m.id.as_str()).as_str());
    s.append(",\"kind\":");
    s.append(json::quote(m.kind.as_str()).as_str());
    s.append(",\"ref\":");
    match &m.reference {
        Some(x) => s.append(json::quote(x.as_str()).as_str()),
        None => s.append("null"),
    }
    s.append(",\"repo\":");
    match &m.repo {
        Some(x) => s.append(json::quote(x.as_str()).as_str()),
        None => s.append("null"),
    }
    s.append(",\"room\":");
    s.append(json::quote(m.room.as_str()).as_str());
    s.append(",\"subject\":");
    s.append(json::quote(m.subject.as_str()).as_str());
    s.append(",\"to\":");
    s.append(json::quote(m.to.as_str()).as_str());
    s.append(",\"ts\":");
    s.append(json::quote(m.ts.as_str()).as_str());
    s.append(",\"v\":");
    s.append(text::show_u64(m.v as u64).as_str());
    s.append("}");
    assert(s@ == signable(m@));
    let bytes = s.as_str().as_bytes();
    let mut out: Vec<u8> = Vec::new();
    let mut i: usize = 0;
    while i < bytes.len()
        invariant
            i <= bytes@.len(),
            out@ == bytes@.take(i as int),
        decreases bytes@.len() - i,
    {
        out.push(bytes[i]);
        assert(out@ =~= bytes@.take(i + 1));
        i = i + 1;
    }
    assert(bytes@.take(i as int) =~= bytes@);
    out
}

// ---- what a signature is worth --------------------------------------------

/// The key that a node's record pins.
pub open spec fn pinned_key(record: Seq<char>) -> Option<Seq<u8>> {
    match json::parsed(record) {
        Some(t) => key_in(t),
        None => None,
    }
}

/// The key that a node's record pins, once it is read.
pub open spec fn key_in(t: json::JsonTree) -> Option<Seq<u8>> {
    match json::text_of(json::member(t, "pubkey"@)) {
        Some(s) => match unhex(s) {
            Some(b) => if b.len() == 32 && is_public_key(b) {
                Some(b)
            } else {
                None
            },
            None => None,
        },
        None => None,
    }
}

/// The key that a node's record pins, once it is read.
pub fn key_of_record(j: &json::Json) -> (r: Option<Vec<u8>>)
    ensures
        match r {
            Some(b) => key_in(j@) == Some(b@) && b@.len() == 32 && is_public_key(b@),
            None => key_in(j@) is None,
        },
{
    match json::get_str(j, "pubkey") {
        Some(s) => match from_hex(s.as_str()) {
            Some(b) => if b.len() == 32 && check_key(&b) {
                Some(b)
            } else {
                None
            },
            None => None,
        },
        None => None,
    }
}

/// Whether a record is the one of a node that registered with a key.
pub open spec fn registers(record: Seq<char>, key: Seq<u8>) -> bool {
    exists|n: Node, now: Seq<char>, note: Seq<char>|
        n.pubkey == Some(node::hex_text(key)) && record == #[trigger] registry::record_text(
            n,
            now,
            note,
        )
}

/// Whether a record pins the key that its node registered with.
pub open spec fn keeps_its_key(record: Seq<char>) -> bool {
    forall|key: Seq<u8>| #[trigger]
        registers(record, key) && key.len() == 32 && is_public_key(key) ==> pinned_key(record)
            == Some(key)
}

/// The key that a node's record pins; `None` where it pins none. The record of a
/// node that registered with a key pins that key.
pub fn node_pubkey(record: &str) -> (r: Option<Vec<u8>>)
    ensures
        match r {
            Some(b) => pinned_key(record@) == Some(b@) && b@.len() == 32 && is_public_key(b@),
            None => pinned_key(record@) is None,
        },
        keeps_its_key(record@),
{
    let read = json::parse(record);
    proof {
        assert forall|key: Seq<u8>| #[trigger]
            registers(record@, key) && key.len() == 32 && is_public_key(key) implies pinned_key(
            record@,
        ) == Some(key) by {
            let (n, now, note) = choose|n: Node, now: Seq<char>, note: Seq<char>|
                n.pubkey == Some(node::hex_text(key)) && record@
                    == #[trigger] registry::record_text(n, now, note);
            registry::lemma_registered(n, now, note);
            hex_reads_back(key);
        }
    }
    match read {
        Some(j) => key_of_record(&j),
        None => None,
    }
}

/// What a message is worth under the key of its sender. Without a signature or
/// without a key it is taken, and marked; only a signature that is there and
/// wrong is a forgery.
pub open spec fn trust(m: Letter, key: Option<Seq<u8>>) -> Seq<char> {
    match (m.sig, key) {
        (None, _) => "unsigned"@,
        (Some(_), None) => "unverified"@,
        (Some(sig), Some(k)) => {
            let good = match unhex(sig) {
                Some(b) => b.len() == 64 && signature_holds(
                    k,
                    vstd::utf8::encode_utf8(signable(m)),
                    b,
                ),
                None => false,
            };
            if good {
                "verified"@
            } else {
                "FORGED"@
            }
        },
    }
}

/// What a message is worth under the key of its sender.
pub fn verify_with(m: &Message, key: Option<&Vec<u8>>) -> (r: &'static str)
    requires
        key matches Some(k) ==> k@.len() == 32 && is_public_key(k@),
    ensures
        r@ == trust(
            m@,
            match key {
                Some(k) => Some(k@),
                None => None,
            },
        ),
{
    match (&m.sig, key) {
        (None, _) => "unsigned",
        (Some(_), None) => "unverified",
        (Some(sig), Some(k)) => {
            let good = match from_hex(sig.as_str()) {
                Some(b) => b.len() == 64 && check_signature(k, &signable_bytes(m), &b),
                None => false,
            };
            if good {
                "verified"
            } else {
                "FORGED"
            }
        },
    }
}

/// What a message is worth: under the key that the record of its sender pins,
/// where there is such a record. The messages that a node signs with the key it
/// registered with are verified.
pub fn verify_state(m: &Message, record: Option<&str>) -> (r: &'static str)
    ensures
        r@ == trust(
            m@,
            match record {
                Some(s) => pinned_key(s@),
                None => None,
            },
        ),
        record matches Some(s) ==> keeps_its_key(s@),
{
    match record {
        Some(s) => match node_pubkey(s) {
            Some(k) => verify_with(m, Some(&k)),
            None => verify_with(m, None),
        },
        None => verify_with(m, None),
    }
}

/// Signs a message. Whoever has the public key finds the message verified.
pub fn sign(m: Message, seed: &Vec<u8>) -> (r: Message)
    requires
        seed@.len() == 32,
    ensures
        r@ == (Letter {
            sig: Some(
                node::hex_text(
                    signature_of(seed@, vstd::utf8::encode_utf8(signable(m@))),
                ),
            ),
            ..m@
        }),
        trust(r@, Some(public_key_of(seed@))) == "verified"@,
{
    let sig = sign_bytes(seed, &signable_bytes(&m));
    let mut out = m;
    proof {
        hex_reads_back(sig@);
    }
    out.sig = Some(to_hex(&sig));
    assert(signable(out@) == signable(m@));
    out
}

// ---- laws -----------------------------------------------------------------

/// A message that is good under the key its sender registered with is verified
/// under the sender's record.
pub proof fn registered_senders_are_verified(m: Letter, record: Seq<char>, key: Seq<u8>)
    requires
        keeps_its_key(record),
        registers(record, key),
        key.len() == 32,
        is_public_key(key),
        trust(m, Some(key)) == "verified"@,
    ensures
        trust(m, pinned_key(record)) == "verified"@,
{
}

/// What is signed does not depend on the signature.
pub proof fn signature_is_not_signed(m: Letter, sig: Option<Seq<char>>)
    ensures
        signable(Letter { sig, ..m }) == signable(m),
{
}

/// A message is called a forgery exactly where it has a signature, its sender has
/// a key, and the two do not fit. Without a signature or a key it is taken, and
/// marked.
pub proof fn only_wrong_signatures_are_forged(m: Letter, key: Option<Seq<u8>>)
    ensures
        trust(m, key) == "FORGED"@ <==> m.sig is Some && key is Some && !(unhex(m.sig->0) is Some
            && unhex(m.sig->0)->0.len() == 64 && signature_holds(
            key->0,
            vstd::utf8::encode_utf8(signable(m)),
            unhex(m.sig->0)->0,
        )),
        m.sig is None || key is None ==> trust(m, key) != "verified"@ && trust(m, key)
            != "FORGED"@,
{
    reveal_strlit("FORGED");
    reveal_strlit("unsigned");
    reveal_strlit("unverified");
    reveal_strlit("verified");
    assert("FORGED"@[0] == 'F');
    assert("unsigned"@[0] == 'u');
    assert("unverified"@[0] == 'u');
    assert("verified"@[0] == 'v');
}

proof fn lemma_quoted_or_null(
    a: Option<Seq<char>>,
    x: Seq<char>,
    b: Option<Seq<char>>,
    y: Seq<char>,
)
    requires
        json::quoted_or_null(a) + x == json::quoted_or_null(b) + y,
    ensures
        a == b,
        x == y,
{
    reveal_strlit("null");
    let l = json::quoted_or_null(a) + x;
    let r = json::quoted_or_null(b) + y;
    assert(l[0] == json::quoted_or_null(a)[0]);
    assert(r[0] == json::quoted_or_null(b)[0]);
    match (a, b) {
        (Some(s), Some(t)) => {
            json::quoted_is_unambiguous(s, x, t, y);
        },
        (None, None) => {
            assert(l.skip(4) =~= x);
            assert(r.skip(4) =~= y);
        },
        _ => {},
    }
}

/// Texts that begin alike and are equal go on alike.
proof fn lemma_same_head(h: Seq<char>, x: Seq<char>, y: Seq<char>)
    requires
        h + x == h + y,
    ensures
        x == y,
{
    assert((h + x).skip(h.len() as int) =~= x);
    assert((h + y).skip(h.len() as int) =~= y);
}

proof fn lemma_assoc(a: Seq<char>, b: Seq<char>, c: Seq<char>)
    ensures
        a + b + c == a + (b + c),
{
    assert(a + b + c =~= a + (b + c));
}

/// What is signed of a message from its version on.
spec fn from_v(m: Letter) -> Seq<char> {
    ",\"v\":"@ + (text::decimal(m.v as nat) + "}"@)
}

/// What is signed of a message from its time on.
spec fn from_ts(m: Letter) -> Seq<char> {
    ",\"ts\":"@ + (json::quoted(m.ts) + from_v(m))
}

/// What is signed of a message from its recipient on.
spec fn from_to(m: Letter) -> Seq<char> {
    ",\"to\":"@ + (json::quoted(m.to) + from_ts(m))
}

/// What is signed of a message from its subject on.
spec fn from_subject(m: Letter) -> Seq<char> {
    ",\"subject\":"@ + (json::quoted(m.subject) + from_to(m))
}

/// What is signed of a message from its room on.
spec fn from_room(m: Letter) -> Seq<char> {
    ",\"room\":"@ + (json::quoted(m.room) + from_subject(m))
}

/// What is signed of a message from its repository on.
spec fn from_repo(m: Letter) -> Seq<char> {
    ",\"repo\":"@ + (json::quoted_or_null(m.repo) + from_room(m))
}

/// What is signed of a message from its reference on.
spec fn from_reference(m: Letter) -> Seq<char> {
    ",\"ref\":"@ + (json::quoted_or_null(m.reference) + from_repo(m))
}

/// What is signed of a message from its kind on.
spec fn from_kind(m: Letter) -> Seq<char> {
    ",\"kind\":"@ + (json::quoted(m.kind) + from_reference(m))
}

/// What is signed of a message from its identifier on.
spec fn from_id(m: Letter) -> Seq<char> {
    ",\"id\":"@ + (json::quoted(m.id) + from_kind(m))
}

/// What is signed of a message from its sender on.
spec fn from_from(m: Letter) -> Seq<char> {
    ",\"from\":"@ + (json::quoted(m.from) + from_id(m))
}

/// What is signed of a message from its extension on.
spec fn from_ext(m: Letter) -> Seq<char> {
    ",\"ext\":"@ + (m.ext + from_from(m))
}

/// What is signed of a message from its body on.
spec fn from_body(m: Letter) -> Seq<char> {
    "{\"body\":"@ + (json::quoted(m.body) + from_ext(m))
}

proof fn lemma_signable(m: Letter)
    ensures
        signable(m) == from_body(m),
{
    let p1 = "{\"body\":"@;
    let p2 = p1 + json::quoted(m.body);
    let p3 = p2 + ",\"ext\":"@;
    let p4 = p3 + m.ext;
    let p5 = p4 + ",\"from\":"@;
    let p6 = p5 + json::quoted(m.from);
    let p7 = p6 + ",\"id\":"@;
    let p8 = p7 + json::quoted(m.id);
    let p9 = p8 + ",\"kind\":"@;
    let p10 = p9 + json::quoted(m.kind);
    let p11 = p10 + ",\"ref\":"@;
    let p12 = p11 + json::quoted_or_null(m.reference);
    let p13 = p12 + ",\"repo\":"@;
    let p14 = p13 + json::quoted_or_null(m.repo);
    let p15 = p14 + ",\"room\":"@;
    let p16 = p15 + json::quoted(m.room);
    let p17 = p16 + ",\"subject\":"@;
    let p18 = p17 + json::quoted(m.subject);
    let p19 = p18 + ",\"to\":"@;
    let p20 = p19 + json::quoted(m.to);
    let p21 = p20 + ",\"ts\":"@;
    let p22 = p21 + json::quoted(m.ts);
    let p23 = p22 + ",\"v\":"@;
    let p24 = p23 + text::decimal(m.v as nat);
    let t25 = "}"@;
    let t24 = text::decimal(m.v as nat) + t25;
    let t23 = ",\"v\":"@ + t24;
    let t22 = json::quoted(m.ts) + t23;
    let t21 = ",\"ts\":"@ + t22;
    let t20 = json::quoted(m.to) + t21;
    let t19 = ",\"to\":"@ + t20;
    let t18 = json::quoted(m.subject) + t19;
    let t17 = ",\"subject\":"@ + t18;
    let t16 = json::quoted(m.room) + t17;
    let t15 = ",\"room\":"@ + t16;
    let t14 = json::quoted_or_null(m.repo) + t15;
    let t13 = ",\"repo\":"@ + t14;
    let t12 = json::quoted_or_null(m.reference) + t13;
    let t11 = ",\"ref\":"@ + t12;
    let t10 = json::quoted(m.kind) + t11;
    let t9 = ",\"kind\":"@ + t10;
    let t8 = json::quoted(m.id) + t9;
    let t7 = ",\"id\":"@ + t8;
    let t6 = json::quoted(m.from) + t7;
    let t5 = ",\"from\":"@ + t6;
    let t4 = m.ext + t5;
    let t3 = ",\"ext\":"@ + t4;
    let t2 = json::quoted(m.body) + t3;
    let t1 = "{\"body\":"@ + t2;
    lemma_assoc(p23, text::decimal(m.v as nat), t25);
    lemma_assoc(p22, ",\"v\":"@, t24);
    lemma_assoc(p21, json::quoted(m.ts), t23);
    lemma_assoc(p20, ",\"ts\":"@, t22);
    lemma_assoc(p19, json::quoted(m.to), t21);
    lemma_assoc(p18, ",\"to\":"@, t20);
    lemma_assoc(p17, json::quoted(m.subject), t19);
    lemma_assoc(p16, ",\"subject\":"@, t18);
    lemma_assoc(p15, json::quoted(m.room), t17);
    lemma_assoc(p14, ",\"room\":"@, t16);
    lemma_assoc(p13, json::quoted_or_null(m.repo), t15);
    lemma_assoc(p12, ",\"repo\":"@, t14);
    lemma_assoc(p11, json::quoted_or_null(m.reference), t13);
    lemma_assoc(p10, ",\"ref\":"@, t12);
    lemma_assoc(p9, json::quoted(m.kind), t11);
    lemma_assoc(p8, ",\"kind\":"@, t10);
    lemma_assoc(p7, json::quoted(m.id), t9);
    lemma_assoc(p6, ",\"id\":"@, t8);
    lemma_assoc(p5, json::quoted(m.from), t7);
    lemma_assoc(p4, ",\"from\":"@, t6);
    lemma_assoc(p3, m.ext, t5);
    lemma_assoc(p2, ",\"ext\":"@, t4);
    lemma_assoc(p1, json::quoted(m.body), t3);
}

/// Whether the name of the sender's field could begin at a place.
spec fn marked(t: Seq<char>, k: int) -> bool {
    0 <= k && k + 2 < t.len() && t[k] == ',' && t[k + 1] == '"' && t[k + 2] == 'f'
}

/// Whether it begins nowhere.
spec fn unmarked(t: Seq<char>) -> bool {
    forall|k: int| !marked(t, k)
}

proof fn lemma_unmarked_label(label: Seq<char>, rest: Seq<char>)
    requires
        label.len() > 3,
        label[0] == ',',
        label[2] != 'f',
        forall|k: int| 1 <= k < label.len() ==> #[trigger] label[k] != ',',
        unmarked(rest),
    ensures
        unmarked(label + rest),
        (label + rest)[0] == ',',
{
    let t = label + rest;
    assert forall|k: int| !marked(t, k) by {
        if marked(t, k) {
            if k < label.len() {
                assert(t[k] == label[k]);
                assert(t[k + 2] == label[2]);
            } else {
                assert(marked(rest, k - label.len()));
            }
        }
    }
}

proof fn lemma_unmarked_quoted(s: Seq<char>, rest: Seq<char>)
    requires
        rest.len() > 0,
        rest[0] == ',',
        unmarked(rest),
    ensures
        unmarked(json::quoted(s) + rest),
{
    let q = json::quoted(s);
    let e = text::expanded(s, json::escapes());
    let t = q + rest;
    let n = q.len() as int;
    json::lemma_escaped_quotes(s);
    assert forall|k: int| !marked(t, k) by {
        if marked(t, k) {
            if k + 1 < n - 1 {
                assert(t[k + 1] == q[k + 1] && q[k + 1] == e[k]);
                if k > 0 {
                    assert(t[k] == q[k] && q[k] == e[k - 1]);
                }
            } else if k + 1 == n - 1 {
                assert(t[k + 2] == rest[0]);
            } else if k == n - 1 {
                assert(t[k] == '"');
            } else {
                assert(marked(rest, k - n));
            }
        }
    }
}

proof fn lemma_unmarked_or_null(s: Option<Seq<char>>, rest: Seq<char>)
    requires
        rest.len() > 0,
        rest[0] == ',',
        unmarked(rest),
    ensures
        unmarked(json::quoted_or_null(s) + rest),
{
    match s {
        Some(x) => {
            lemma_unmarked_quoted(x, rest);
        },
        None => {
            reveal_strlit("null");
            let t = "null"@ + rest;
            assert forall|k: int| !marked(t, k) by {
                if marked(t, k) && k >= 4 {
                    assert(marked(rest, k - 4));
                }
            }
        },
    }
}

proof fn lemma_unmarked_version(m: Letter)
    ensures
        unmarked(from_v(m)),
        from_v(m)[0] == ',',
{
    reveal_strlit(",\"v\":");
    reveal_strlit("}");
    let d = text::decimal(m.v as nat);
    text::lemma_decimal_digits(m.v as nat);
    let rest = d + "}"@;
    assert forall|k: int| !marked(rest, k) by {
        if marked(rest, k) {
            assert(rest[k] == d[k]);
        }
    }
    lemma_unmarked_label(",\"v\":"@, rest);
}

/// Behind the extension the name of the sender's field stands once, at the
/// beginning.
proof fn lemma_marked_once(m: Letter)
    ensures
        marked(from_from(m), 0),
        forall|k: int| k > 0 ==> !marked(from_from(m), k),
{
    reveal_strlit(",\"ts\":");
    reveal_strlit(",\"to\":");
    reveal_strlit(",\"subject\":");
    reveal_strlit(",\"room\":");
    reveal_strlit(",\"repo\":");
    reveal_strlit(",\"ref\":");
    reveal_strlit(",\"kind\":");
    reveal_strlit(",\"id\":");
    reveal_strlit(",\"from\":");
    lemma_unmarked_version(m);
    lemma_unmarked_quoted(m.ts, from_v(m));
    lemma_unmarked_label(",\"ts\":"@, json::quoted(m.ts) + from_v(m));
    lemma_unmarked_quoted(m.to, from_ts(m));
    lemma_unmarked_label(",\"to\":"@, json::quoted(m.to) + from_ts(m));
    lemma_unmarked_quoted(m.subject, from_to(m));
    lemma_unmarked_label(",\"subject\":"@, json::quoted(m.subject) + from_to(m));
    lemma_unmarked_quoted(m.room, from_subject(m));
    lemma_unmarked_label(",\"room\":"@, json::quoted(m.room) + from_subject(m));
    lemma_unmarked_or_null(m.repo, from_room(m));
    lemma_unmarked_label(",\"repo\":"@, json::quoted_or_null(m.repo) + from_room(m));
    lemma_unmarked_or_null(m.reference, from_repo(m));
    lemma_unmarked_label(",\"ref\":"@, json::quoted_or_null(m.reference) + from_repo(m));
    lemma_unmarked_quoted(m.kind, from_reference(m));
    lemma_unmarked_label(",\"kind\":"@, json::quoted(m.kind) + from_reference(m));
    lemma_unmarked_quoted(m.id, from_kind(m));
    lemma_unmarked_label(",\"id\":"@, json::quoted(m.id) + from_kind(m));
    lemma_unmarked_quoted(m.from, from_id(m));
    let label = ",\"from\":"@;
    let rest = json::quoted(m.from) + from_id(m);
    let t = from_from(m);
    assert forall|k: int| k > 0 implies !marked(t, k) by {
        if marked(t, k) {
            if k < label.len() {
                assert(t[k] == label[k]);
            } else {
                assert(marked(rest, k - label.len()));
            }
        }
    }
}

/// Two texts that go on alike are the same where what follows is marked at its
/// beginning and nowhere else.
proof fn lemma_same_until_mark(x: Seq<char>, p: Seq<char>, y: Seq<char>, q: Seq<char>)
    requires
        x + p == y + q,
        x.len() <= y.len(),
        marked(q, 0),
        forall|k: int| k > 0 ==> !marked(p, k),
    ensures
        x == y,
{
    let whole = x + p;
    let n: int = y.len() as int;
    let d: int = n - x.len();
    let other = y + q;
    assert(other.len() == n + q.len());
    assert(whole.len() == x.len() + p.len());
    assert(other[n] == q[0] && other[n + 1] == q[1] && other[n + 2] == q[2]);
    assert(whole[n] == p[d] && whole[n + 1] == p[d + 1] && whole[n + 2] == p[d + 2]);
    assert(marked(p, d));
    assert(whole.take(n) =~= x);
    assert(other.take(n) =~= y);
}

/// Two messages that say different things are signed differently: where what is
/// signed is the same, everything but the signature is, whatever the texts of
/// the messages hold.
pub proof fn signing_binds_every_field(a: Letter, b: Letter)
    requires
        signable(a) == signable(b),
    ensures
        a == (Letter { sig: a.sig, ..b }),
{
    lemma_signable(a);
    lemma_signable(b);
    lemma_same_head(
        "{\"body\":"@,
        json::quoted(a.body) + from_ext(a),
        json::quoted(b.body) + from_ext(b),
    );
    json::quoted_is_unambiguous(a.body, from_ext(a), b.body, from_ext(b));
    lemma_same_head(",\"ext\":"@, a.ext + from_from(a), b.ext + from_from(b));
    lemma_marked_once(a);
    lemma_marked_once(b);
    if a.ext.len() <= b.ext.len() {
        lemma_same_until_mark(a.ext, from_from(a), b.ext, from_from(b));
    } else {
        lemma_same_until_mark(b.ext, from_from(b), a.ext, from_from(a));
    }
    lemma_same_head(a.ext, from_from(a), from_from(b));
    lemma_same_head(
        ",\"from\":"@,
        json::quoted(a.from) + from_id(a),
        json::quoted(b.from) + from_id(b),
    );
    json::quoted_is_unambiguous(a.from, from_id(a), b.from, from_id(b));
    lemma_same_head(
        ",\"id\":"@,
        json::quoted(a.id) + from_kind(a),
        json::quoted(b.id) + from_kind(b),
    );
    json::quoted_is_unambiguous(a.id, from_kind(a), b.id, from_kind(b));
    lemma_same_head(
        ",\"kind\":"@,
        json::quoted(a.kind) + from_reference(a),
        json::quoted(b.kind) + from_reference(b),
    );
    json::quoted_is_unambiguous(a.kind, from_reference(a), b.kind, from_reference(b));
    lemma_same_head(
        ",\"ref\":"@,
        json::quoted_or_null(a.reference) + from_repo(a),
        json::quoted_or_null(b.reference) + from_repo(b),
    );
    lemma_quoted_or_null(a.reference, from_repo(a), b.reference, from_repo(b));
    lemma_same_head(
        ",\"repo\":"@,
        json::quoted_or_null(a.repo) + from_room(a),
        json::quoted_or_null(b.repo) + from_room(b),
    );
    lemma_quoted_or_null(a.repo, from_room(a), b.repo, from_room(b));
    lemma_same_head(
        ",\"room\":"@,
        json::quoted(a.room) + from_subject(a),
        json::quoted(b.room) + from_subject(b),
    );
    json::quoted_is_unambiguous(a.room, from_subject(a), b.room, from_subject(b));
    lemma_same_head(
        ",\"subject\":"@,
        json::quoted(a.subject) + from_to(a),
        json::quoted(b.subject) + from_to(b),
    );
    json::quoted_is_unambiguous(a.subject, from_to(a), b.subject, from_to(b));
    lemma_same_head(",\"to\":"@, json::quoted(a.to) + from_ts(a), json::quoted(b.to) + from_ts(b));
    json::quoted_is_unambiguous(a.to, from_ts(a), b.to, from_ts(b));
    lemma_same_head(",\"ts\":"@, json::quoted(a.ts) + from_v(a), json::quoted(b.ts) + from_v(b));
    json::quoted_is_unambiguous(a.ts, from_v(a), b.ts, from_v(b));
    let da = text::decimal(a.v as nat);
    let db = text::decimal(b.v as nat);
    lemma_same_head(",\"v\":"@, da + "}"@, db + "}"@);
    reveal_strlit("}");
    assert((da + "}"@).drop_last() =~= da);
    assert((db + "}"@).drop_last() =~= db);
    text::lemma_decimal_value(a.v as nat);
    text::lemma_decimal_value(b.v as nat);
}

/// What is said of a message is what was checked: nothing without a signature, no
/// more than that there is one where the sender has no key, and else whether the
/// signature is one of 64 bytes that holds under the key for all that the message
/// says.
pub proof fn trust_says_what_was_checked(m: Letter, key: Option<Seq<u8>>)
    ensures
        m.sig is None ==> trust(m, key) == "unsigned"@,
        m.sig is Some && key is None ==> trust(m, key) == "unverified"@,
        m.sig is Some && key is Some ==> trust(m, key) == if unhex(m.sig->0) matches Some(b)
            && b.len() == 64 && signature_holds(
            key->0,
            vstd::utf8::encode_utf8(signable(m)),
            b,
        ) {
            "verified"@
        } else {
            "FORGED"@
        },
{
}

/// A key on record is 32 bytes in hexadecimal that are a public key; nothing else
/// under its name is one.
pub proof fn records_pin_whole_keys(t: json::JsonTree, key: Seq<u8>)
    ensures
        key_in(t) == Some(key) <==> (json::member(t, "pubkey"@) matches Some(json::JsonTree::Str(s))
            && unhex(s) == Some(key)) && key.len() == 32 && is_public_key(key),
{
}

/// A stored key is what was written, and only whole keys are read.
pub proof fn stored_keys_are_read_back(key: Seq<u8>)
    ensures
        stored_key(node::hex_text(key)) == Some(key) <==> key.len() == 32,
        forall|s: Seq<char>| #[trigger] stored_key(s) == Some(key) ==> key.len() == 32 && unhex(
            text::trimmed(s),
        ) == Some(key),
{
    hex_reads_back(key);
    let s = node::hex_text(key);
    let (i, j) = text::lemma_trimmed_shape(s);
    assert forall|k: int| 0 <= k < s.len() implies !text::white(#[trigger] s[k]) by {
        assert(hex_value(s[k]) >= 0);
    }
    assert(text::trimmed(s) =~= s) by {
        if i > 0 {
            assert(text::white(s.take(i)[0]) || text::white(s[0]));
        }
        if j < s.len() {
            assert(text::white(s[s.len() - 1]));
        }
    }
}

/// Hexadecimal digits count the same in either case.
pub proof fn hexadecimal_in_either_case(s: Seq<char>)
    ensures
        unhex(text::ascii_lowered(s)) == unhex(s),
{
    let low = text::ascii_lowered(s);
    assert forall|i: int| 0 <= i < s.len() implies (hex_value(#[trigger] low[i]) >= 0 <==> hex_value(
        s[i],
    ) >= 0) && (hex_value(s[i]) >= 0 ==> hex_value(low[i]) == hex_value(s[i])) by {}
    if forall|i: int| 0 <= i < s.len() ==> hex_value(#[trigger] s[i]) >= 0 {
        assert forall|i: int| 0 <= i < low.len() implies hex_value(#[trigger] low[i]) >= 0 by {
            assert(hex_value(s[i]) >= 0);
        }
        if s.len() % 2 == 0 {
            let (a, b) = (unhex(low)->0, unhex(s)->0);
            assert forall|i: int| 0 <= i < a.len() implies a[i] == b[i] by {
                assert(hex_value(s[2 * i]) >= 0 && hex_value(s[2 * i + 1]) >= 0);
                assert(hex_value(low[2 * i]) >= 0 && hex_value(low[2 * i + 1]) >= 0);
            }
            assert(a =~= b);
        }
    } else {
        let i = choose|i: int| 0 <= i < s.len() && hex_value(#[trigger] s[i]) < 0;
        assert(hex_value(low[i]) < 0);
    }
}

} // verus!
